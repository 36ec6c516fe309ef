//! Inserting a word keeps the transducer sound, gives the word its output and
//! leaves the outputs of the other words alone.

use crate::insertion::{lemma_push_outputs_frame, lower};
use crate::model::{
    lemma_reduce_by_iota, lemma_run_empty, lemma_run_last, lemma_run_prefix, lemma_run_step, Model,
    SignatureView,
};
use crate::proofs::paths::{
    lemma_enters_path, lemma_greatest_exists, lemma_on_path, lemma_path_distinct,
    lemma_path_index, lemma_path_steps, lemma_reaches_path,
};
use crate::proofs::reduction::lemma_reduce_by;
use crate::utils::{common_prefix_len, lemma_common_prefix_len};
use crate::wellformed::equivalent;
use vstd::prelude::*;

verus! {

impl Model {
    /// What the path has emitted when it arrives at its position `i`.
    pub open spec fn path_output(self, i: int) -> nat {
        self.prefix_output(self.min_except.take(i))
    }

    /// What the path emits up to its position `i` once it emits no more than `out`.
    pub open spec fn capped(self, out: nat, i: int) -> nat {
        lower(self.path_output(i), out)
    }

    /// The output that a transition that leaves the path gets when the path is
    /// to emit no more than `out`: the transition of the path gets what the cap
    /// lets through on it, every other one what the path no longer emits before
    /// it, on top of its own.
    pub open spec fn pushed_value(self, out: nat, key: (usize, char)) -> usize {
        let i = self.path_index(key.0);
        if i < self.min_except.len() && key.1 == self.min_except[i] {
            (self.capped(out, i + 1) - self.capped(out, i)) as usize
        } else {
            (self.path_output(i) + self.lambda[key] - self.capped(out, i)) as usize
        }
    }

    /// The transition outputs after those at the first `upto` states of the path
    /// have been rewritten.
    pub open spec fn pushed_lambda(self, out: nat, upto: int) -> Map<(usize, char), usize> {
        Map::new(
            |key: (usize, char)| self.lambda.contains_key(key),
            |key: (usize, char)|
                if self.on_path(key.0) && self.path_index(key.0) < upto {
                    self.pushed_value(out, key)
                } else {
                    self.lambda[key]
                },
        )
    }

    /// The final outputs after those at the first `upto` states of the path, but
    /// the initial state, have been rewritten.
    pub open spec fn pushed_psi(self, out: nat, upto: int) -> Map<usize, usize> {
        Map::new(
            |q: usize| self.psi.contains_key(q),
            |q: usize|
                if self.on_path(q) && 1 <= self.path_index(q) < upto {
                    (self.path_output(self.path_index(q)) + self.psi[q] - self.capped(
                        out,
                        self.path_index(q),
                    )) as usize
                } else {
                    self.psi[q]
                },
        )
    }
}

/// What is emitted along the path grows with the position, and what is read
/// one label further emits the output of the transition on top.
pub proof fn lemma_path_output_step(m: Model, i: int)
    requires
        m.consistent(),
        m.reads(m.min_except),
        0 <= i < m.min_except.len(),
    ensures
        m.path_output(i + 1) == m.path_output(i) + m.lambda[(m.path_state(i), m.min_except[i])],
        m.lambda.contains_key((m.path_state(i), m.min_except[i])),
{
    reveal(Model::consistent);
    lemma_run_step(m, 0, m.min_except, i);
    lemma_path_steps(m, i);
    lemma_path_steps(m, i + 1);
}

/// Where the outputs fit, those at a state of the path fit with what the path
/// has emitted before them.
pub proof fn lemma_path_fits(m: Model, i: int)
    requires
        m.consistent(),
        m.reads(m.min_except),
        m.fits(),
        0 <= i <= m.min_except.len(),
    ensures
        m.path_output(i) + m.final_output(m.path_state(i)) <= usize::MAX,
        forall|c: char| #[trigger]
            m.lambda.contains_key((m.path_state(i), c)) ==> m.path_output(i) + m.lambda[(
                m.path_state(i),
                c,
            )] <= usize::MAX,
{
    reveal(Model::consistent);
    reveal(Model::fits);
    lemma_path_steps(m, i);
    let u = m.min_except.take(i);
    assert(m.reads(u));
    assert(m.output(u) <= usize::MAX);
    assert forall|c: char| #[trigger] m.lambda.contains_key((m.path_state(i), c))
        implies m.path_output(i)
        + m.lambda[(m.path_state(i), c)] <= usize::MAX by {
        let v = u.push(c);
        assert(v.drop_last() =~= u);
        assert(v.last() == c);
        lemma_run_last(m, 0, v);
        assert(m.delta.contains_key((m.path_state(i), c)));
        assert(m.reads(v));
        assert(m.output(v) <= usize::MAX);
    }
}

/// Rewriting the outputs along the private path can be done, and gives each
/// transition that leaves one of the first `upto` states of the path, and each
/// final output there, the value that the cap asks for.
pub proof fn lemma_pushed(b: Model, w: Seq<char>, out: nat, upto: nat)
    requires
        b.consistent(),
        b.private_path(),
        b.fits(),
        b.min_except.len() <= w.len(),
        w.take(b.min_except.len() as int) == b.min_except,
        upto <= b.min_except.len() + 1,
    ensures
        b.can_push_outputs(b, w, b.min_except.len(), out, upto),
        b.push_outputs(b, w, b.min_except.len(), out, upto).lambda == b.pushed_lambda(out,
            upto as int),
        b.push_outputs(b, w, b.min_except.len(), out, upto).psi == b.pushed_psi(out, upto as int),
    decreases upto,
{
    reveal(Model::consistent);
    reveal(Model::private_path);
    let k = b.min_except.len();
    if upto == 0 {
        assert(b.lambda =~= b.pushed_lambda(out, 0));
        assert(b.psi =~= b.pushed_psi(out, 0));
    } else {
        let p = (upto - 1) as nat;
        lemma_pushed(b, w, out, p);
        lemma_push_outputs_frame(b, b, w, k, out, p);
        let prev = b.push_outputs(b, w, k, out, p);
        assert(w.take(p as int) =~= b.min_except.take(p as int));
        let q = b.path_state(p as int);
        let sum = b.path_output(p as int);
        lemma_path_index(b, p as int);
        lemma_path_fits(b, p as int);
        lemma_path_steps(b, p as int);
        let step = b.path_step(w, k, out, p);
        if p < k {
            assert(w.take(p as int + 1) =~= b.min_except.take(p as int + 1));
            assert(w[p as int] == b.min_except[p as int]);
            lemma_path_output_step(b, p as int);
        }
        let next = prev.compensate(q, sum, out, step, p >= 1);
        assert(prev.can_compensate(q, sum, p >= 1)) by {
            assert forall|c: char| #[trigger] prev.lambda.contains_key((q, c))
                implies sum + prev.lambda[(q, c)]
                <= usize::MAX by {
                assert(b.lambda.contains_key((q, c)));
            }
        }
        assert(next.lambda =~= b.pushed_lambda(out, upto as int)) by {
            assert forall|key: (usize, char)| next.lambda.contains_key(key) implies next.lambda[key]
                == b.pushed_lambda(out, upto as int)[key] by {
                if key.0 == q {
                } else if b.on_path(key.0) {
                    lemma_on_path(b, key.0);
                }
            }
        }
        assert(next.psi =~= b.pushed_psi(out, upto as int)) by {
            assert forall|x: usize| next.psi.contains_key(x) <==> b.psi.contains_key(x) by {
                if x == q && b.finality.contains(q) {
                    assert(b.psi.contains_key(q));
                }
            }
            assert forall|x: usize| next.psi.contains_key(x) implies next.psi[x] == b.pushed_psi(
                out,
                upto as int,
            )[x] by {
                if x == q {
                    if b.psi.contains_key(q) {
                        assert(b.finality.contains(q));
                    }
                } else if b.on_path(x) {
                    lemma_on_path(b, x);
                }
            }
        }
    }
}

impl Model {
    /// The position on the path along the new word of a state that is the end of
    /// the old path or a new state.
    pub open spec fn edge_index(self, q: usize) -> int {
        if q == self.last_state() {
            self.min_except.len() as int
        } else {
            q - self.max_state() + self.min_except.len()
        }
    }

    /// `key` is one of the transitions of the new part of the path along `w`,
    /// before position `upto`.
    pub open spec fn is_new_edge(self, w: Seq<char>, upto: int, key: (usize, char)) -> bool {
        let e = self.edge_index(key.0);
        &&& self.min_except.len() <= e < upto
        &&& key.0 == self.new_state(e)
        &&& key.1 == w[e]
    }

    /// The transitions with those of the new part of the path before position `upto`.
    pub open spec fn extended_delta(self, w: Seq<char>, upto: int) -> Map<(usize, char), usize> {
        Map::new(
            |key: (usize, char)| self.delta.contains_key(key) || self.is_new_edge(w, upto, key),
            |key: (usize, char)|
                if self.is_new_edge(w, upto, key) {
                    self.new_state(self.edge_index(key.0) + 1)
                } else {
                    self.delta[key]
                },
        )
    }

    /// The inverse relation with the new part of the path before position `upto`.
    pub open spec fn extended_inv(self, w: Seq<char>, upto: int) -> Set<(usize, char, usize)> {
        Set::new(
            |x: (usize, char, usize)|
                self.delta_inv.contains(x) || (self.is_new_edge(w, upto, (x.2, x.1)) && x.0
                    == self.new_state(self.edge_index(x.2) + 1)),
        )
    }

    /// The transition outputs, rewritten along the old path, with those of the
    /// new part of the path before position `upto`.
    pub open spec fn extended_lambda(self, w: Seq<char>, out: nat, upto: int) -> Map<
        (usize, char),
        usize,
    > {
        Map::new(
            |key: (usize, char)| self.lambda.contains_key(key) || self.is_new_edge(w, upto, key),
            |key: (usize, char)|
                if self.is_new_edge(w, upto, key) {
                    if self.edge_index(key.0) == self.min_except.len() {
                        self.branch_output(out)
                    } else {
                        0
                    }
                } else {
                    self.pushed_lambda(out, self.min_except.len() as int + 1)[key]
                },
        )
    }

    /// The base is ready for the word `w`: it is sound, `min_except` is a prefix
    /// of `w` after which no transition on the next label of `w` exists, and the
    /// new states fit the machine word.
    pub open spec fn ready_for(self, w: Seq<char>) -> bool {
        &&& self.inv()
        &&& self.min_except.len() <= w.len()
        &&& w.take(self.min_except.len() as int) == self.min_except
        &&& self.min_except.len() < w.len() ==> !self.delta.contains_key(
            (self.last_state(), w[self.min_except.len() as int]),
        )
        &&& self.max_state() + (w.len() - self.min_except.len()) <= usize::MAX
    }

}

/// The new part of the path, written out.
pub proof fn lemma_chained(b: Model, w: Seq<char>, out: nat, upto: nat)
    requires
        b.ready_for(w),
        b.min_except.len() <= upto <= w.len(),
    ensures
        b.chained(w, out, upto).delta == b.extended_delta(w, upto as int),
        b.chained(w, out, upto).delta_inv == b.extended_inv(w, upto as int),
        b.chained(w, out, upto).lambda == b.extended_lambda(w, out, upto as int),
        b.chained(w, out, upto).alphabet == b.grown(w, out).alphabet,
        b.chained(w, out, upto).states == b.grown(w, out).states,
        b.chained(w, out, upto).finality == b.grown(w, out).finality,
        b.chained(w, out, upto).psi == b.grown(w, out).psi,
        b.chained(w, out, upto).iota == b.grown(w, out).iota,
        b.chained(w, out, upto).index == b.grown(w, out).index,
    decreases upto,
{
    reveal(Model::private_path);
    let k = b.min_except.len();
    lemma_push_outputs_frame(b, b, w, k, out, k + 1);
    lemma_pushed(b, w, out, k + 1);
    if upto == k {
        assert(b.chained(w, out, upto).delta =~= b.extended_delta(w, upto as int));
        assert(b.chained(w, out, upto).delta_inv =~= b.extended_inv(w, upto as int));
        assert(b.chained(w, out, upto).lambda =~= b.extended_lambda(w, out, upto as int));
    } else {
        lemma_chained(b, w, out, (upto - 1) as nat);
        let e = (upto - 1) as int;
        let from = b.new_state(e);
        assert(b.edge_index(from) == e) by {
            lemma_last_state_bound(b);
        }
        assert forall|key: (usize, char)| b.is_new_edge(w, upto as int, key)
            <==> (b.is_new_edge(w, e, key)
            || key == (from, w[e])) by {
            lemma_last_state_bound(b);
        }
        assert(!b.chained(w, out, e as nat).delta.contains_key((from, w[e]))) by {
            reveal(Model::consistent);
            lemma_last_state_bound(b);
            if b.states.contains(from) {
                lemma_greatest_exists(b.states, from);
            }
        }
        assert(b.chained(w, out, upto).delta =~= b.extended_delta(w, upto as int));
        assert(b.chained(w, out, upto).delta_inv =~= b.extended_inv(w, upto as int));
        assert(b.chained(w, out, upto).lambda =~= b.extended_lambda(w, out, upto as int));
    }
}

/// The states of a sound transducer are no greater than its greatest state.
pub proof fn lemma_last_state_bound(b: Model)
    requires
        b.consistent(),
        b.reads(b.min_except),
    ensures
        b.last_state() <= b.max_state(),
        b.states.contains(b.last_state()),
        forall|x: usize| #[trigger] b.states.contains(x) ==> x <= b.max_state(),
{
    let n = b.min_except.len() as int;
    assert(b.min_except.take(n) =~= b.min_except);
    lemma_path_steps(b, n);
    crate::proofs::paths::lemma_greatest_exists(b.states, b.last_state());
}

impl Model {
    /// The state at position `i` of the path along the new word.
    pub open spec fn word_state(self, i: int) -> usize {
        if i <= self.min_except.len() {
            self.path_state(i)
        } else {
            self.new_state(i)
        }
    }

    /// `x` is one of the new states that the rest of `w` gets.
    pub open spec fn is_new_state(self, w: Seq<char>, x: usize) -> bool {
        self.max_state() < x <= self.max_state() + (w.len() - self.min_except.len())
    }
}

/// The parts of the extended base, written out.
pub proof fn lemma_extended_fields(b: Model, w: Seq<char>, out: usize)
    requires
        b.ready_for(w),
    ensures
        b.extended(w, out).delta == b.extended_delta(w, w.len() as int),
        b.extended(w, out).delta_inv == b.extended_inv(w, w.len() as int),
        b.extended(w, out).lambda == b.extended_lambda(w, out as nat, w.len() as int),
        b.extended(w, out).psi == b.pushed_psi(out as nat, b.min_except.len() as int + 1).insert(
            b.new_state(w.len() as int),
            if w.len() > b.min_except.len() {
                0
            } else {
                b.branch_output(out as nat)
            },
        ),
        b.extended(w, out).finality == b.finality.insert(b.new_state(w.len() as int)),
        b.extended(w, out).states == b.states.union(Set::new(|q: usize| b.is_new_state(w, q))),
        b.extended(w, out).alphabet == b.alphabet.union(w.skip(b.min_except.len() as int).to_set()),
        b.extended(w, out).index == b.index,
        b.extended(w, out).min_except == w,
        b.extended(w, out).iota == lower(b.iota as nat, out as nat),
{
    let k = b.min_except.len();
    lemma_chained(b, w, out as nat, w.len());
    lemma_push_outputs_frame(b, b, w, k, out as nat, k + 1);
    lemma_pushed(b, w, out as nat, k + 1);
    assert(b.extended(w, out).states =~= b.states.union(Set::new(|q: usize| b.is_new_state(w, q))));
}

/// An old state other than the end of the old path has no new transition.
pub proof fn lemma_old_edges(b: Model, w: Seq<char>)
    requires
        b.ready_for(w),
    ensures
        forall|key: (usize, char)| #[trigger]
            b.delta.contains_key(key) ==> !b.is_new_edge(w, w.len() as int, key),
        forall|key: (usize, char)| #[trigger]
            b.is_new_edge(w, w.len() as int, key) ==> (key.0 == b.last_state() || b.is_new_state(
                w,
                key.0,
            )) && b.is_new_state(w, b.new_state(b.edge_index(key.0) + 1)),
{
    reveal(Model::consistent);
    reveal(Model::private_path);
    lemma_last_state_bound(b);
    assert forall|key: (usize, char)| #[trigger] b.delta.contains_key(key) implies !b.is_new_edge(
        w,
        w.len() as int,
        key,
    ) by {
        assert(b.states.contains(key.0));
    }
}

/// Inserting a word keeps the store consistent.
pub proof fn lemma_extended_consistent(b: Model, w: Seq<char>, out: usize)
    requires
        b.ready_for(w),
    ensures
        b.extended(w, out).consistent(),
{
    reveal(Model::consistent);
    reveal(Model::private_path);
    let r = b.extended(w, out);
    let k = b.min_except.len() as int;
    let n = w.len() as int;
    lemma_extended_fields(b, w, out);
    lemma_old_edges(b, w);
    lemma_last_state_bound(b);
    assert forall|key: (usize, char)| #[trigger] r.delta.contains_key(key) implies {
        &&& r.lambda.contains_key(key)
        &&& r.states.contains(key.0)
        &&& r.states.contains(r.delta[key])
        &&& r.alphabet.contains(key.1)
        &&& r.delta[key] != 0
        &&& r.delta_inv.contains((r.delta[key], key.1, key.0))
    } by {
        if b.is_new_edge(w, n, key) {
            let e = b.edge_index(key.0);
            assert(w.skip(k)[e - k] == w[e]);
            assert(w.skip(k).to_set().contains(key.1));
            assert(b.is_new_state(w, b.new_state(e + 1)));
        } else {
            assert(b.delta.contains_key(key));
        }
    }
    assert forall|key: (usize, char)| #[trigger] r.lambda.contains_key(key)
        implies r.delta.contains_key(
        key,
    ) by {
        if !b.is_new_edge(w, n, key) {
            assert(b.lambda.contains_key(key));
        }
    }
    assert forall|e: (usize, char, usize)| #[trigger] r.delta_inv.contains(e)
        implies r.delta.contains_key(
        (e.2, e.1),
    ) && r.delta[(e.2, e.1)] == e.0 by {
        if b.delta_inv.contains(e) {
            assert(b.delta.contains_key((e.2, e.1)));
        }
    }
    assert forall|q: usize| #[trigger] r.psi.contains_key(q) implies r.finality.contains(q) by {
        if q != b.new_state(n) {
            assert(b.psi.contains_key(q));
        }
    }
    assert forall|q: usize| #[trigger] r.finality.contains(q) implies r.psi.contains_key(q)
        && r.states.contains(q) by {
        if q != b.new_state(n) {
            assert(b.finality.contains(q));
        } else {
            if n > k {
                assert(b.is_new_state(w, q));
            }
        }
    }
}

/// The path along the inserted word runs through the old path and the new states.
pub proof fn lemma_extended_path(b: Model, w: Seq<char>, out: usize, i: int)
    requires
        b.ready_for(w),
        0 <= i <= w.len(),
    ensures
        b.extended(w, out).run(0, w.take(i)) == Some(b.word_state(i)),
        b.extended(w, out).path_state(i) == b.word_state(i),
    decreases i,
{
    reveal(Model::private_path);
    let r = b.extended(w, out);
    let k = b.min_except.len() as int;
    let n = w.len() as int;
    lemma_extended_fields(b, w, out);
    lemma_old_edges(b, w);
    lemma_last_state_bound(b);
    if i == 0 {
        lemma_run_empty(r, 0);
        assert(w.take(0) =~= Seq::<char>::empty());
        lemma_path_steps(b, 0);
    } else {
        lemma_extended_path(b, w, out, i - 1);
        lemma_run_step(r, 0, w, i - 1);
        if i <= k {
            lemma_path_steps(b, i);
            assert(w[i - 1] == b.min_except[i - 1]) by {
                assert(w.take(k)[i - 1] == w[i - 1]);
            }
        } else {
            assert(b.last_state() == b.path_state(k)) by {
                assert(b.min_except.take(k) =~= b.min_except);
            }
            let key = (b.word_state(i - 1), w[i - 1]);
            assert(b.edge_index(key.0) == i - 1);
            assert(b.is_new_edge(w, n, key));
        }
    }
}

/// What lies on the path along the inserted word: the old path and the new states.
pub proof fn lemma_extended_on_path(b: Model, w: Seq<char>, out: usize)
    requires
        b.ready_for(w),
    ensures
        forall|x: usize| #[trigger]
            b.extended(w, out).on_path(x) <==> (b.on_path(x) || b.is_new_state(w, x)),
{
    reveal(Model::private_path);
    let r = b.extended(w, out);
    let k = b.min_except.len() as int;
    let n = w.len() as int;
    lemma_extended_fields(b, w, out);
    lemma_last_state_bound(b);
    assert forall|x: usize| #[trigger] r.on_path(x) <==> (b.on_path(x) || b.is_new_state(w, x)) by {
        if r.on_path(x) {
            let i = choose|i: int| 0 <= i <= r.min_except.len() && #[trigger] r.path_state(i) == x;
            lemma_extended_path(b, w, out, i);
            if i <= k {
                assert(b.path_state(i) == x);
            }
        }
        if b.on_path(x) {
            let i = choose|i: int| 0 <= i <= b.min_except.len() && #[trigger] b.path_state(i) == x;
            lemma_extended_path(b, w, out, i);
            assert(r.path_state(i) == x);
        }
        if b.is_new_state(w, x) {
            let i = x - b.max_state() + k;
            lemma_extended_path(b, w, out, i);
            assert(r.path_state(i) == x);
        }
    }
}

/// The path along the inserted word is private.
pub proof fn lemma_extended_private(b: Model, w: Seq<char>, out: usize)
    requires
        b.ready_for(w),
    ensures
        b.extended(w, out).private_path(),
{
    reveal(Model::consistent);
    reveal(Model::private_path);
    let r = b.extended(w, out);
    let k = b.min_except.len() as int;
    let n = w.len() as int;
    lemma_extended_fields(b, w, out);
    lemma_old_edges(b, w);
    lemma_last_state_bound(b);
    lemma_extended_path(b, w, out, n);
    assert(w.take(n) =~= w);
    assert forall|key: (usize, char), i: int|
        #![trigger r.delta.contains_key(key), r.path_state(i)]
        r.delta.contains_key(key) && 1 <= i <= r.min_except.len()
            && r.delta[key] == r.path_state(i) implies key
        == (r.state_after(r.min_except.take(i - 1)), r.min_except[i - 1]) by {
        lemma_extended_path(b, w, out, i);
        lemma_extended_path(b, w, out, i - 1);
        if i <= k {
            lemma_path_steps(b, i);
            assert(!b.is_new_edge(w, n, key));
            lemma_enters_path(b, key, i);
            assert(w.take(k)[i - 1] == w[i - 1]);
        } else {
            if b.is_new_edge(w, n, key) {
                assert(b.last_state() == b.path_state(k)) by {
                    assert(b.min_except.take(k) =~= b.min_except);
                }
            } else {
                assert(b.states.contains(b.delta[key]));
            }
        }
    }
}

/// Off the path, inserting a word leaves the signatures alone.
pub proof fn lemma_extended_signature(b: Model, w: Seq<char>, out: usize, x: usize)
    requires
        b.ready_for(w),
        b.states.contains(x),
        !b.on_path(x),
    ensures
        b.extended(w, out).signature(x) == b.signature(x),
{
    reveal(Model::consistent);
    reveal(Model::private_path);
    let r = b.extended(w, out);
    let k = b.min_except.len() as int;
    let n = w.len() as int;
    lemma_extended_fields(b, w, out);
    lemma_old_edges(b, w);
    lemma_last_state_bound(b);
    lemma_path_index(b, k);
    assert(b.last_state() == b.path_state(k)) by {
        assert(b.min_except.take(k) =~= b.min_except);
    }
    assert(x != b.last_state());
    assert(x != b.new_state(n));
    assert forall|c: char| !b.is_new_edge(w, n, (x, c)) by {}
    assert(r.signature(x).transitions =~= b.signature(x).transitions);
}

/// Inserting a word keeps the index exact.
pub proof fn lemma_extended_index(b: Model, w: Seq<char>, out: usize)
    requires
        b.ready_for(w),
    ensures
        b.extended(w, out).index_exact(),
{
    reveal(Model::private_path);
    reveal(Model::index_exact);
    let r = b.extended(w, out);
    lemma_extended_fields(b, w, out);
    lemma_extended_on_path(b, w, out);
    assert forall|x: usize| #[trigger] r.states.contains(x) && !r.on_path(x)
        implies r.registered(x) by {
        assert(b.states.contains(x));
        lemma_extended_signature(b, w, out, x);
        assert(b.registered(x));
    }
    assert forall|s: SignatureView| #[trigger] r.index.contains_key(s) implies {
        &&& r.states.contains(r.index[s])
        &&& r.signature(r.index[s]) == s
        &&& !r.on_path(r.index[s])
    } by {
        assert(b.index.contains_key(s));
        lemma_extended_signature(b, w, out, b.index[s]);
        lemma_last_state_bound(b);
    }
}

/// What the capped path emits grows with the position and stays within the cap.
pub proof fn lemma_capped(b: Model, out: nat, i: int)
    requires
        b.consistent(),
        b.reads(b.min_except),
        0 <= i < b.min_except.len(),
    ensures
        b.capped(out, i) <= b.capped(out, i + 1) <= out,
        b.capped(out, i) <= b.path_output(i),
{
    lemma_path_output_step(b, i);
}

/// Along the inserted word the transducer emits what the cap lets through on
/// the old path and the whole output from the first new transition on.
pub proof fn lemma_extended_prefix_output(b: Model, w: Seq<char>, out: usize, i: int)
    requires
        b.ready_for(w),
        0 <= i <= w.len(),
    ensures
        b.extended(w, out).prefix_output(w.take(i)) == (if i <= b.min_except.len() {
            b.capped(out as nat, i)
        } else {
            out as nat
        }),
    decreases i,
{
    reveal(Model::consistent);
    reveal(Model::private_path);
    let r = b.extended(w, out);
    let k = b.min_except.len() as int;
    let n = w.len() as int;
    lemma_extended_fields(b, w, out);
    lemma_old_edges(b, w);
    lemma_last_state_bound(b);
    assert(b.min_except.take(k) =~= b.min_except);
    if i == 0 {
        lemma_run_empty(r, 0);
        lemma_run_empty(b, 0);
        assert(w.take(0) =~= Seq::<char>::empty());
        assert(b.min_except.take(0) =~= Seq::<char>::empty());
    } else {
        lemma_extended_prefix_output(b, w, out, i - 1);
        lemma_extended_path(b, w, out, i - 1);
        lemma_run_step(r, 0, w, i - 1);
        let key = (b.word_state(i - 1), w[i - 1]);
        if i <= k {
            lemma_path_steps(b, i);
            lemma_path_index(b, i - 1);
            lemma_capped(b, out as nat, i - 1);
            assert(w[i - 1] == b.min_except[i - 1]) by {
                assert(w.take(k)[i - 1] == w[i - 1]);
            }
            assert(b.delta.contains_key(key));
            assert(b.lambda.contains_key(key));
            assert(!b.is_new_edge(w, n, key));
            assert(r.lambda[key] == b.pushed_value(out as nat, key));
        } else {
            assert(b.last_state() == b.path_state(k)) by {
                assert(b.min_except.take(k) =~= b.min_except);
            }
            assert(b.edge_index(key.0) == i - 1);
            assert(b.is_new_edge(w, n, key));
        }
    }
}

/// A word that the base reads is read by the extended base, along the same
/// states. Where it leaves the old path it has emitted the same when it
/// arrives; where it stays on the old path it has emitted what the cap lets
/// through.
pub proof fn lemma_extended_old_word(b: Model, w: Seq<char>, out: usize, u: Seq<char>)
    requires
        b.ready_for(w),
        b.reads(u),
    ensures
        b.extended(w, out).run(0, u) == b.run(0, u),
        !b.on_path(b.state_after(u)) ==> b.extended(w, out).prefix_output(u) == b.prefix_output(u),
        b.on_path(b.state_after(u)) ==> u == b.min_except.take(b.path_index(b.state_after(u)))
            && b.extended(w, out).prefix_output(u) == b.capped(
            out as nat,
            b.path_index(b.state_after(u)),
        ),
    decreases u.len(),
{
    reveal(Model::consistent);
    reveal(Model::private_path);
    let r = b.extended(w, out);
    let k = b.min_except.len() as int;
    let n = w.len() as int;
    lemma_extended_fields(b, w, out);
    lemma_old_edges(b, w);
    if u.len() == 0 {
        lemma_run_empty(r, 0);
        lemma_run_empty(b, 0);
        assert(u =~= Seq::<char>::empty());
        lemma_path_steps(b, 0);
        lemma_path_index(b, 0);
        assert(b.min_except.take(0) =~= u);
    } else {
        let v = u.drop_last();
        let c = u.last();
        lemma_run_last(b, 0, u);
        lemma_run_last(r, 0, u);
        lemma_extended_old_word(b, w, out, v);
        let y = b.state_after(v);
        let x = b.state_after(u);
        let key = (y, c);
        assert(b.delta.contains_key(key) && b.delta[key] == x);
        assert(b.lambda.contains_key(key));
        assert(!b.is_new_edge(w, n, key));
        if b.on_path(x) {
            lemma_on_path(b, x);
            let j = b.path_index(x);
            lemma_enters_path(b, key, j);
            lemma_path_index(b, j - 1);
            lemma_reaches_path(b, u, j);
            lemma_capped(b, out as nat, j - 1);
            assert(r.lambda[key] == b.pushed_value(out as nat, key));
        } else if b.on_path(y) {
            lemma_on_path(b, y);
            let j = b.path_index(y);
            if j < k && c == b.min_except[j] {
                lemma_path_steps(b, j + 1);
                assert(b.path_state(j + 1) == x);
            }
            assert(r.lambda[key] == b.pushed_value(out as nat, key));
            lemma_path_fits(b, j);
            if j < k {
                lemma_capped(b, out as nat, j);
            }
        } else {
            assert(r.lambda[key] == b.lambda[key]);
        }
    }
}

/// A word that the extended base reads and the base does not is a prefix of the
/// inserted word that reaches into its new part.
pub proof fn lemma_extended_new_word(b: Model, w: Seq<char>, out: usize, u: Seq<char>)
    requires
        b.ready_for(w),
        b.extended(w, out).reads(u),
        !b.reads(u),
    ensures
        b.min_except.len() < u.len() <= w.len(),
        u == w.take(u.len() as int),
    decreases u.len(),
{
    reveal(Model::consistent);
    reveal(Model::private_path);
    let r = b.extended(w, out);
    let k = b.min_except.len() as int;
    let n = w.len() as int;
    lemma_extended_fields(b, w, out);
    lemma_old_edges(b, w);
    lemma_last_state_bound(b);
    if u.len() == 0 {
        lemma_run_empty(b, 0);
        assert(u =~= Seq::<char>::empty());
    } else {
        let v = u.drop_last();
        let c = u.last();
        lemma_run_last(b, 0, u);
        lemma_run_last(r, 0, u);
        assert(u =~= v.push(c));
        if b.reads(v) {
            lemma_extended_old_word(b, w, out, v);
            let y = b.state_after(v);
            let key = (y, c);
            assert(r.delta.contains_key(key));
            assert(b.is_new_edge(w, n, key));
            assert(b.states.contains(y)) by {
                lemma_reads_state(b, v);
            }
            assert(y == b.last_state());
            assert(b.min_except.take(k) =~= b.min_except);
            lemma_reaches_path(b, v, k);
            assert(w.take(k + 1) =~= w.take(k).push(w[k]));
        } else {
            lemma_extended_new_word(b, w, out, v);
            let i = v.len() as int;
            lemma_extended_path(b, w, out, i);
            let key = (b.new_state(i), c);
            assert(r.delta.contains_key(key));
            if b.delta.contains_key(key) {
                assert(b.states.contains(key.0));
            }
            assert(b.is_new_edge(w, n, key));
            assert(w.take(i + 1) =~= w.take(i).push(w[i]));
        }
    }
}

/// What a consistent transducer reads ends in one of its states.
pub proof fn lemma_reads_state(m: Model, u: Seq<char>)
    requires
        m.consistent(),
        m.reads(u),
    ensures
        m.states.contains(m.state_after(u)),
{
    reveal(Model::consistent);
    if u.len() == 0 {
        lemma_run_empty(m, 0);
        assert(u =~= Seq::<char>::empty());
    } else {
        lemma_run_last(m, 0, u);
    }
}

/// What the extended base emits for a word that it reads fits the machine
/// word; it is the output of the inserted word for that word, and what the base
/// emitted for every other word of the dictionary but the empty one. The
/// extended base accepts the words that the base accepts, and the inserted word.
pub proof fn lemma_extended_output(b: Model, w: Seq<char>, out: usize, u: Seq<char>)
    requires
        b.ready_for(w),
    ensures
        b.reads(u) ==> b.extended(w, out).reads(u),
        b.extended(w, out).reads(u) ==> b.extended(w, out).output(u) <= usize::MAX,
        b.accepts(u) && u != w && u.len() > 0 ==> b.extended(w, out).output(u) == b.output(u),
        b.accepts(u) && u != w && u.len() == 0
            ==> b.extended(w, out).output(u) + b.iota == b.output(u) + b.extended(w, out).iota,
        u == w ==> b.extended(w, out).reads(u) && b.extended(w, out).output(u) == out,
        b.extended(w, out).accepts(u) <==> (b.accepts(u) || u == w),
{
    reveal(Model::consistent);
    reveal(Model::private_path);
    reveal(Model::fits);
    let r = b.extended(w, out);
    let k = b.min_except.len() as int;
    let n = w.len() as int;
    lemma_extended_fields(b, w, out);
    lemma_last_state_bound(b);
    lemma_extended_path(b, w, out, n);
    lemma_extended_prefix_output(b, w, out, n);
    assert(w.take(n) =~= w);
    assert(b.min_except.take(k) =~= b.min_except);
    let last = b.new_state(n);
    if b.reads(u) {
        lemma_extended_old_word(b, w, out, u);
        lemma_reads_state(b, u);
        let x = b.state_after(u);
        assert(b.output(u) <= usize::MAX);
        if b.on_path(x) {
            lemma_on_path(b, x);
            let j = b.path_index(x);
            lemma_path_fits(b, j);
            if j < k {
                lemma_capped(b, out as nat, j);
                lemma_path_distinct(b, j, k);
            }
            if u == w {
                assert(j == k) by {
                    assert(u.len() == j);
                }
            }
            if x == last {
                assert(n == k);
                lemma_reaches_path(b, u, k);
            }
            if b.psi.contains_key(x) {
                assert(b.finality.contains(x));
            }
            if b.finality.contains(x) {
                assert(b.psi.contains_key(x));
            }
        } else {
            assert(x != last) by {
                lemma_path_index(b, k);
            }
            if b.psi.contains_key(x) {
                assert(b.finality.contains(x));
            }
            if u == w {
                lemma_extended_path(b, w, out, n);
                lemma_path_index(b, k);
            }
        }
    } else if r.reads(u) {
        lemma_extended_new_word(b, w, out, u);
        let i = u.len() as int;
        lemma_extended_path(b, w, out, i);
        lemma_extended_prefix_output(b, w, out, i);
        let x = b.new_state(i);
        if b.psi.contains_key(x) {
            assert(b.finality.contains(x));
            assert(b.states.contains(x));
        }
        if b.finality.contains(x) {
            assert(b.states.contains(x));
        }
        if i == n {
            assert(u =~= w);
        }
    }
    if b.accepts(u) && u != w && u.len() == 0 {
        assert(u =~= Seq::<char>::empty());
        lemma_run_empty(b, 0);
        lemma_run_empty(r, 0);
        assert(b.min_except.take(0) =~= Seq::<char>::empty());
        lemma_path_index(b, 0);
        assert(last != 0) by {
            if n == k {
                lemma_path_distinct(b, 0, k);
            }
        }
        assert(b.psi.contains_key(0));
        assert(r.psi[0] == b.psi[0]);
    }
}

/// Inserting a word into a base that is ready for it keeps the transducer
/// sound, with the path along the inserted word.
pub proof fn lemma_extended_inv(b: Model, w: Seq<char>, out: usize)
    requires
        b.ready_for(w),
    ensures
        b.extended(w, out).inv(),
        b.extended(w, out).min_except == w,
{
    reveal(Model::fits);
    let r = b.extended(w, out);
    lemma_extended_fields(b, w, out);
    lemma_extended_consistent(b, w, out);
    lemma_extended_private(b, w, out);
    lemma_extended_index(b, w, out);
    assert(r.fits()) by {
        assert forall|u: Seq<char>| #[trigger] r.reads(u) implies r.output(u) <= usize::MAX by {
            lemma_extended_output(b, w, out, u);
        }
    }
}

/// Reducing the path to its common prefix with an insertable word makes the
/// transducer ready for the word.
pub proof fn lemma_ready(m: Model, w: Seq<char>)
    requires
        m.inv(),
        m.insertable(w),
        m.max_state() + (w.len() - common_prefix_len(m.min_except, w)) <= usize::MAX,
    ensures
        common_prefix_len(m.min_except, w) <= m.min_except.len(),
        common_prefix_len(m.min_except, w) <= w.len(),
        m.reducible_by((m.min_except.len() - common_prefix_len(m.min_except, w)) as nat),
        m.reduce_by((m.min_except.len() - common_prefix_len(m.min_except, w)) as nat).ready_for(w),
        m.reduce_by((m.min_except.len() - common_prefix_len(m.min_except,
            w)) as nat).min_except.len()
            == common_prefix_len(m.min_except, w),
        equivalent(m, m.reduce_by((m.min_except.len() - common_prefix_len(m.min_except,
            w)) as nat)),
        m.reduce_by((m.min_except.len() - common_prefix_len(m.min_except, w)) as nat).max_state()
            <= m.max_state(),
{
    reveal(Model::private_path);
    lemma_common_prefix_len(m.min_except, w);
    let k = common_prefix_len(m.min_except, w);
    let j = (m.min_except.len() - k) as nat;
    lemma_reduce_by(m, j);
    let b = m.reduce_by(j);
    assert(m.min_except.take(k as int) =~= w.take(k as int));
    assert(b.min_except.take(k as int) =~= b.min_except);
    lemma_path_steps(b, k as int);
    lemma_path_steps(m, k as int);
    lemma_last_state_bound(b);
    assert(m.states.contains(b.last_state()));
    crate::proofs::paths::lemma_greatest_exists(m.states, b.last_state());
    assert(b.states.contains(b.max_state()));
    assert(m.states.contains(b.max_state()));
    assert(b.path_state(k as int) == m.path_state(k as int));
    if k < w.len() {
        assert(b.delta.contains_key((m.path_state(k as int), w[k as int]))
            <==> m.delta.contains_key(
            (m.path_state(k as int), w[k as int]),
        ));
    }
}

/// Inserting a word after the entries so far can be done and keeps the
/// transducer sound. The transducer then accepts the words that it accepted,
/// and the inserted word; it emits the given output for the inserted word, and
/// for every other word of the dictionary, but the empty one, what it emitted
/// before.
pub proof fn lemma_add_entry_in_order(m: Model, w: Seq<char>, out: usize)
    requires
        m.inv(),
        m.insertable(w),
        m.max_state() + (w.len() - common_prefix_len(m.min_except, w)) <= usize::MAX,
    ensures
        m.can_add(w, out),
        m.add_entry_in_order(w, out).inv(),
        m.add_entry_in_order(w, out).min_except == w,
        m.add_entry_in_order(w, out).output(w) == out,
        forall|u: Seq<char>| #[trigger]
            m.add_entry_in_order(w, out).accepts(u) <==> (m.accepts(u) || u == w),
        forall|u: Seq<char>|
            m.accepts(u) && u != w && u.len() > 0
                ==> #[trigger] m.add_entry_in_order(w, out).output(u)
                == m.output(u),
        m.add_entry_in_order(w, out).max_state() <= m.max_state() + (w.len() - common_prefix_len(
            m.min_except,
            w,
        )),
        m.add_entry_in_order(w, out).iota == lower(m.iota as nat, out as nat),
        m.accepts(Seq::empty()) && w.len() > 0
            ==> m.add_entry_in_order(w, out).output(Seq::empty()) + m.iota
            == m.output(Seq::empty()) + m.add_entry_in_order(w, out).iota,
{
    reveal(Model::private_path);
    lemma_ready(m, w);
    let k = common_prefix_len(m.min_except, w);
    let b = m.reduce_by((m.min_except.len() - k) as nat);
    let r = b.extended(w, out);
    lemma_extended_inv(b, w, out);
    lemma_extended_fields(b, w, out);
    lemma_pushed(b, w, out as nat, k + 1);
    lemma_path_fits(b, k as int);
    assert(b.min_except.take(k as int) =~= b.min_except);
    assert(b.has_outputs_along(w.take(k as int))) by {
        assert forall|i: int| 0 <= i < k implies b.lambda.contains_key(
            (#[trigger] b.state_after(w.take(k as int).take(i)), w.take(k as int)[i]),
        ) by {
            lemma_path_output_step(b, i);
        }
    }
    lemma_extended_output(b, w, out, w);
    assert forall|u: Seq<char>| #[trigger] r.accepts(u) <==> (m.accepts(u) || u == w) by {
        lemma_extended_output(b, w, out, u);
        assert(m.reads(u) == b.reads(u));
    }
    assert forall|u: Seq<char>| m.accepts(u) && u != w && u.len() > 0 implies #[trigger] r.output(u)
        == m.output(u) by {
        lemma_extended_output(b, w, out, u);
        assert(m.reads(u) == b.reads(u));
    }
    lemma_last_state_bound(b);
    lemma_last_state_bound(r);
    assert(r.states.contains(r.max_state()));
    lemma_reduce_by_iota(m, (m.min_except.len() - k) as nat);
    if m.accepts(Seq::empty()) && w.len() > 0 {
        let e = Seq::<char>::empty();
        lemma_extended_output(b, w, out, e);
        assert(m.reads(e) == b.reads(e));
        assert(b.output(e) == m.output(e));
    }
}

/// The word `a` comes before the word `b` in the order of a dictionary: `a` is
/// a proper prefix of `b`, or where they first differ `a` has the lower label.
pub open spec fn word_less(a: Seq<char>, b: Seq<char>) -> bool {
    let k = common_prefix_len(a, b);
    k < b.len() && (k == a.len() || (a[k as int] as int) < (b[k as int] as int))
}

/// The word `b` may be inserted after the word `a`: `a` is a prefix of `b`, or
/// where they first differ `a` has the lower label.
pub open spec fn in_order(a: Seq<char>, b: Seq<char>) -> bool {
    let k = common_prefix_len(a, b);
    k == a.len() || (k < b.len() && (a[k as int] as int) < (b[k as int] as int))
}

impl Model {
    /// Nothing that the transducer reads comes after `min_except`: the last
    /// state of the path has no transition, and each state before it has
    /// transitions on no higher label than that of the path.
    #[verifier::opaque]
    pub open spec fn frontier(self) -> bool {
        forall|i: int, c: char|
            0 <= i <= self.min_except.len() && #[trigger] self.delta.contains_key(
                (self.path_state(i), c),
            ) ==> i < self.min_except.len() && (c as int) <= (self.min_except[i] as int)
    }
}

/// A word that comes after `min_except`, where nothing that the transducer
/// reads comes after `min_except`, can be inserted, and is not read so far.
pub proof fn lemma_frontier_insertable(m: Model, w: Seq<char>)
    requires
        m.inv(),
        m.frontier(),
        word_less(m.min_except, w),
    ensures
        m.insertable(w),
        !m.reads(w),
{
    reveal(Model::private_path);
    reveal(Model::frontier);
    lemma_common_prefix_len(m.min_except, w);
    let k = common_prefix_len(m.min_except, w) as int;
    assert(m.min_except.take(k) =~= w.take(k));
    lemma_path_steps(m, k);
    assert(m.path_state(k) == m.state_after(w.take(k)));
    if m.reads(w) {
        lemma_run_prefix(m, 0, w, k + 1);
        lemma_run_step(m, 0, w, k);
        assert(m.delta.contains_key((m.path_state(k), w[k])));
    }
}

/// After a word that comes after `min_except` has been inserted, nothing that
/// the transducer reads comes after that word.
pub proof fn lemma_frontier_kept(m: Model, w: Seq<char>, out: usize)
    requires
        m.inv(),
        m.frontier(),
        word_less(m.min_except, w),
        m.max_state() + (w.len() - common_prefix_len(m.min_except, w)) <= usize::MAX,
    ensures
        m.add_entry_in_order(w, out).frontier(),
{
    reveal(Model::consistent);
    reveal(Model::private_path);
    reveal(Model::frontier);
    lemma_frontier_insertable(m, w);
    lemma_ready(m, w);
    lemma_common_prefix_len(m.min_except, w);
    let k = common_prefix_len(m.min_except, w) as int;
    let n = w.len() as int;
    let j = (m.min_except.len() - k) as nat;
    let b = m.reduce_by(j);
    let r = b.extended(w, out);
    lemma_reduce_by(m, j);
    lemma_extended_fields(b, w, out);
    lemma_old_edges(b, w);
    lemma_last_state_bound(b);
    assert(b.min_except.take(k) =~= b.min_except);
    assert forall|i: int, c: char|
        0 <= i <= r.min_except.len()
            && #[trigger] r.delta.contains_key((r.path_state(i), c)) implies i
        < r.min_except.len() && (c as int) <= (r.min_except[i] as int) by {
        lemma_extended_path(b, w, out, i);
        let key = (r.path_state(i), c);
        if i <= k {
            assert(b.path_state(i) == m.path_state(i));
            lemma_path_steps(b, i);
            if b.is_new_edge(w, n, key) {
                if i < k {
                    lemma_path_distinct(b, i, k);
                }
            } else {
                assert(b.delta.contains_key((m.path_state(i), c)));
                assert(m.delta.contains_key((m.path_state(i), c)));
            }
        } else {
            if b.delta.contains_key(key) {
                assert(b.states.contains(key.0));
            }
        }
    }
}

/// Nothing that the transducer of one word reads comes after the word.
pub proof fn lemma_single_frontier(word: Seq<char>, out: usize)
    requires
        word.len() <= usize::MAX,
    ensures
        Model::single(word, out).frontier(),
{
    reveal(Model::frontier);
    let r = Model::single(word, out);
    assert forall|p: int, c: char|
        0 <= p <= r.min_except.len()
            && #[trigger] r.delta.contains_key((r.path_state(p), c)) implies p
        < r.min_except.len() && (c as int) <= (r.min_except[p] as int) by {
        crate::proofs::single::lemma_single_path(word, out, p);
    }
}

} // verus!
