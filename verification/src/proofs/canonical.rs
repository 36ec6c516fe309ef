//! Moving the least outputs up the path leaves the outputs of the words alone.

use crate::insertion::has_row;
use crate::model::{
    lemma_run_empty, lemma_run_last, lemma_run_prefix, lemma_run_same_delta, lemma_run_step, Model,
    SignatureView,
};
use crate::proofs::addition::lemma_path_output_step;
use crate::proofs::earliest::{lemma_extract_tidy, lemma_raise_tidy, lemma_same_outputs_tidy};
use crate::proofs::paths::{lemma_enters_path, lemma_path_steps, lemma_reaches_path};
use crate::wellformed::lemma_ranked_sub;
use vstd::prelude::*;

verus! {

impl Model {
    /// `u` follows the path up to its position `i`.
    pub open spec fn passes(self, u: Seq<char>, i: int) -> bool {
        i <= u.len() && u.take(i) == self.min_except.take(i)
    }

    /// `r` is the transducer `self` with other outputs along the path: they
    /// have the same states, transitions, final states and index, and the same
    /// outputs off the path.
    pub open spec fn same_shape(self, r: Model) -> bool {
        &&& r.alphabet == self.alphabet
        &&& r.states == self.states
        &&& r.finality == self.finality
        &&& r.delta == self.delta
        &&& r.delta_inv == self.delta_inv
        &&& r.min_except == self.min_except
        &&& r.index == self.index
        &&& forall|k: (usize, char)| #[trigger] r.lambda.contains_key(k)
            == self.lambda.contains_key(k)
        &&& forall|q: usize| #[trigger] r.psi.contains_key(q) == self.psi.contains_key(q)
        &&& forall|k: (usize, char)|
            self.lambda.contains_key(k) && !self.on_path(k.0) ==> #[trigger] r.lambda[k]
                == self.lambda[k]
        &&& forall|q: usize|
            self.psi.contains_key(q) && !self.on_path(q) ==> #[trigger] r.psi[q] == self.psi[q]
    }

    /// What a word has emitted more in `r` than in `self`, where the two differ
    /// in the outputs at position `p` of the path alone: the difference of the
    /// output of the transition on which the word leaves that position.
    pub open spec fn edge_gain(self, r: Model, p: int, u: Seq<char>) -> int {
        if self.passes(u, p) && p < u.len() {
            r.lambda[(self.path_state(p), u[p])] - self.lambda[(self.path_state(p), u[p])]
        } else {
            0
        }
    }
}

/// A transducer with other outputs along the path is consistent, has a private
/// path, an exact index, and is rooted, where the first is.
pub proof fn lemma_shape_structure(a: Model, r: Model)
    requires
        a.sound(),
        a.same_shape(r),
    ensures
        r.consistent(),
        r.private_path(),
        r.index_exact(),
        r.rooted(),
        forall|i: int| 0 <= i <= a.min_except.len()
            ==> #[trigger] r.path_state(i) == a.path_state(i),
        forall|x: usize| #[trigger] r.on_path(x) == a.on_path(x),
        forall|x: usize| r.is_divergent(x) == a.is_divergent(x),
{
    reveal(Model::consistent);
    reveal(Model::private_path);
    reveal(Model::index_exact);
    reveal(Model::accessible);
    assert forall|i: int| 0 <= i <= a.min_except.len()
        implies #[trigger] r.path_state(i) == a.path_state(i) by {
        lemma_run_same_delta(a, r, 0, a.min_except.take(i));
    }
    assert forall|x: usize| #[trigger] r.on_path(x) == a.on_path(x) by {
        if r.on_path(x) {
            let i = choose|i: int| 0 <= i <= r.min_except.len() && #[trigger] r.path_state(i) == x;
            assert(a.path_state(i) == x);
        }
        if a.on_path(x) {
            let i = choose|i: int| 0 <= i <= a.min_except.len() && #[trigger] a.path_state(i) == x;
            assert(r.path_state(i) == x);
        }
    }
    assert(r.private_path()) by {
        lemma_run_same_delta(a, r, 0, a.min_except);
        assert forall|k: (usize, char), i: int|
            #![trigger r.delta.contains_key(k), r.path_state(i)]
            r.delta.contains_key(k) && 1 <= i <= r.min_except.len()
                && r.delta[k] == r.path_state(i) implies k
            == (r.state_after(r.min_except.take(i - 1)), r.min_except[i - 1]) by {
            assert(r.path_state(i) == a.path_state(i));
            assert(r.path_state(i - 1) == a.path_state(i - 1));
            lemma_enters_path(a, k, i);
        }
    }
    assert forall|x: usize| !a.on_path(x) implies r.signature(x) == a.signature(x) by {
        assert(r.signature(x).transitions =~= a.signature(x).transitions) by {
            assert forall|c: char| r.signature(x).transitions.contains_key(c) implies r.signature(
                x,
            ).transitions[c] == a.signature(x).transitions[c] by {
                assert(a.lambda.contains_key((x, c)));
                assert(r.lambda[(x, c)] == a.lambda[(x, c)]);
            }
        }
        if a.psi.contains_key(x) {
            assert(r.psi[x] == a.psi[x]);
        }
    }
    assert forall|x: usize| #[trigger] r.states.contains(x) && !r.on_path(x)
        implies r.registered(x) by {
        assert(!a.on_path(x));
        assert(a.registered(x));
    }
    assert forall|s: SignatureView| #[trigger] r.index.contains_key(s) implies {
        &&& r.states.contains(r.index[s])
        &&& r.signature(r.index[s]) == s
        &&& !r.on_path(r.index[s])
    } by {
        assert(a.index.contains_key(s));
        assert(!a.on_path(a.index[s]));
    }
    assert forall|x: usize| #[trigger] r.states.contains(x) implies r.reachable(x) by {
        assert(a.reachable(x));
        let u = choose|u: Seq<char>| a.run(0, u) == Some(x);
        lemma_run_same_delta(a, r, 0, u);
    }
    lemma_ranked_sub(a, r);
}

/// Where two transducers differ in the outputs of the transitions that leave
/// one state of the path alone, a word emits in the second what it emits in
/// the first and the gain on the transition on which it leaves that state.
pub proof fn lemma_weight_change(a: Model, r: Model, p: int, u: Seq<char>)
    requires
        a.consistent(),
        a.private_path(),
        0 <= p <= a.min_except.len(),
        r.delta == a.delta,
        forall|k: (usize, char)| #[trigger] r.lambda.contains_key(k) == a.lambda.contains_key(k),
        forall|k: (usize, char)|
            a.lambda.contains_key(k) && k.0 != a.path_state(p)
                ==> #[trigger] r.lambda[k] == a.lambda[k],
        a.reads(u),
    ensures
        r.run(0, u) == a.run(0, u),
        r.weight(0, u) == a.weight(0, u) + a.edge_gain(r, p, u),
    decreases u.len(),
{
    reveal(Model::consistent);
    lemma_run_same_delta(a, r, 0, u);
    if u.len() == 0 {
        lemma_run_empty(a, 0);
        lemma_run_empty(r, 0);
        assert(u =~= Seq::<char>::empty());
    } else {
        let v = u.drop_last();
        let c = u.last();
        lemma_run_last(a, 0, u);
        lemma_run_last(r, 0, u);
        lemma_run_same_delta(a, r, 0, v);
        lemma_weight_change(a, r, p, v);
        let x = a.run(0, v).unwrap();
        let s = a.path_state(p);
        assert(a.lambda.contains_key((x, c)));
        if x == s {
            lemma_reaches_path(a, v, p);
            assert(u.take(p) =~= v);
            assert(u[p] == c);
        } else {
            assert(r.lambda[(x, c)] == a.lambda[(x, c)]);
            if a.passes(u, p) && p < u.len() {
                if p == v.len() {
                    assert(u.take(p) =~= v);
                    lemma_path_steps(a, p);
                    reveal(Model::private_path);
                } else {
                    assert(v.take(p) =~= u.take(p));
                    assert(v[p] == u[p]);
                }
            }
            if a.passes(v, p) && p < v.len() {
                assert(v.take(p) =~= u.take(p));
                assert(v[p] == u[p]);
            }
        }
    }
}

/// Among the outputs at a state none is below the least, and the least is one
/// of them, or 0 where there is none.
pub proof fn lemma_least_output_exists(m: Model, q: usize)
    ensures
        m.is_least_output(q, m.least_output(q)),
{
    if exists|v: nat| m.has_output(q, v) {
        let v = choose|v: nat| m.has_output(q, v);
        lemma_least_below(m, q, v);
    } else {
        assert(m.is_least_output(q, 0)) by {
            assert forall|c: char| #[trigger] m.lambda.contains_key((q, c))
                implies 0 <= m.lambda[(q, c)] by {}
            if has_row(m.lambda, q) {
                let c = choose|c: char| m.lambda.contains_key((q, c));
                assert(m.has_output(q, m.lambda[(q, c)] as nat));
            }
            if m.psi.contains_key(q) {
                assert(m.has_output(q, m.psi[q] as nat));
            }
        }
    }
}

/// Below an output at a state there is a least output.
proof fn lemma_least_below(m: Model, q: usize, v: nat)
    requires
        m.has_output(q, v),
    ensures
        exists|w: nat| m.is_least_output(q, w),
    decreases v,
{
    if m.is_least_output(q, v) {
    } else {
        if exists|c: char| m.lambda.contains_key((q, c)) && m.lambda[(q, c)] < v {
            let c = choose|c: char| m.lambda.contains_key((q, c)) && m.lambda[(q, c)] < v;
            assert(m.has_output(q, m.lambda[(q, c)] as nat));
            lemma_least_below(m, q, m.lambda[(q, c)] as nat);
        } else {
            assert(m.psi.contains_key(q) && m.psi[q] < v);
            assert(m.has_output(q, m.psi[q] as nat));
            lemma_least_below(m, q, m.psi[q] as nat);
        }
    }
}

impl Model {
    /// The word loses the least output when it is taken out at position `p` of
    /// the path: it leaves that position on a transition, or ends there in a
    /// state with a final output.
    pub open spec fn pays_at(self, u: Seq<char>, p: int) -> bool {
        self.passes(u, p) && (p < u.len() || self.psi.contains_key(self.path_state(p)))
    }

    /// What the transducer emits for `u`, and `v` on top where `u` follows the
    /// path up to position `i`.
    pub open spec fn owed(self, i: int, v: nat, u: Seq<char>) -> int {
        self.output(u) + if self.passes(u, i) {
            v as int
        } else {
            0
        }
    }

    /// What is owed fits the machine word for every word that is read.
    pub open spec fn owed_fits(self, i: int, v: nat) -> bool {
        forall|u: Seq<char>| #[trigger] self.reads(u) ==> self.owed(i, v, u) <= usize::MAX
    }

    /// The model with `v` added to the output of the transition of the path that
    /// enters its position `i`.
    pub open spec fn raised(self, i: int, v: nat) -> Model {
        let s = self.path_state(i - 1);
        let c = self.min_except[i - 1];
        Model {
            lambda: if self.lambda.contains_key((s, c)) {
                self.lambda.insert((s, c), (self.lambda[(s, c)] + v) as usize)
            } else {
                self.lambda
            },
            ..self
        }
    }

    /// The model with `v` added to the initial output.
    pub open spec fn topped(self, v: nat) -> Model {
        Model { iota: (self.iota + v) as usize, ..self }
    }
}

/// Following the path up to a position is following it up to the position
/// before and reading the label of the path there.
pub proof fn lemma_passes_step(a: Model, u: Seq<char>, i: int)
    requires
        1 <= i <= a.min_except.len(),
    ensures
        a.passes(u, i) <==> (a.passes(u, i - 1) && i <= u.len() && u[i - 1] == a.min_except[i - 1]),
{
    if a.passes(u, i) {
        assert(u.take(i - 1) =~= u.take(i).take(i - 1));
        assert(a.min_except.take(i - 1) =~= a.min_except.take(i).take(i - 1));
        assert(u.take(i)[i - 1] == a.min_except.take(i)[i - 1]);
    }
    if a.passes(u, i - 1) && i <= u.len() && u[i - 1] == a.min_except[i - 1] {
        assert(u.take(i) =~= u.take(i - 1).push(u[i - 1]));
        assert(a.min_except.take(i) =~= a.min_except.take(i - 1).push(a.min_except[i - 1]));
    }
}

/// A word that is read ends at a position of the path where it is the prefix
/// of the path of that length, and nowhere else.
pub proof fn lemma_ends_at(a: Model, u: Seq<char>, p: int)
    requires
        a.consistent(),
        a.private_path(),
        0 <= p <= a.min_except.len(),
        a.reads(u),
    ensures
        a.state_after(u) == a.path_state(p) <==> (a.passes(u, p) && u.len() == p),
{
    reveal(Model::private_path);
    lemma_path_steps(a, p);
    if a.state_after(u) == a.path_state(p) {
        lemma_reaches_path(a, u, p);
        assert(u.take(p) =~= u);
    }
    if a.passes(u, p) && u.len() == p {
        assert(u.take(p) =~= u);
    }
}

/// Taking the least output out at a position of the path lowers the output of
/// each word that pays there by it, and leaves the other outputs alone.
pub proof fn lemma_extract(a: Model, p: int)
    requires
        a.sound(),
        0 <= p <= a.min_except.len(),
    ensures
        a.same_shape(a.extract_min_from_state(a.path_state(p))),
        a.extract_min_from_state(a.path_state(p)).iota == a.iota,
        forall|u: Seq<char>| #[trigger]
            a.reads(u) ==> a.extract_min_from_state(a.path_state(p)).output(u)
                == a.output(u) - (if a.pays_at(
                u,
                p,
            ) {
                a.least_output(a.path_state(p)) as int
            } else {
                0
            }),
        has_row(a.lambda, a.path_state(p)) ==> exists|c: char| #[trigger]
            a.lambda.contains_key((a.path_state(p), c)) && a.least_output(a.path_state(p))
                <= a.lambda[(a.path_state(p), c)],
        forall|c: char| #[trigger]
            a.lambda.contains_key((a.path_state(p), c)) ==> a.least_output(a.path_state(p))
                <= a.lambda[(a.path_state(p), c)],
        !has_row(a.lambda, a.path_state(p)) && !a.psi.contains_key(a.path_state(p))
            ==> a.least_output(
            a.path_state(p),
        ) == 0,
{
    let s = a.path_state(p);
    let v = a.least_output(s);
    let ex = a.extract_min_from_state(s);
    lemma_least_output_exists(a, s);
    assert(a.consistent() && a.private_path());
    assert(a.on_path(s));
    assert(a.same_shape(ex));
    assert forall|u: Seq<char>| #[trigger] a.reads(u)
        implies ex.output(u) == a.output(u) - (if a.pays_at(
        u,
        p,
    ) {
        v as int
    } else {
        0
    }) by {
        lemma_weight_change(a, ex, p, u);
        lemma_ends_at(a, u, p);
        if a.passes(u, p) && p < u.len() {
            lemma_run_prefix(a, 0, u, p + 1);
            lemma_run_prefix(a, 0, u, p);
            lemma_run_step(a, 0, u, p);
            lemma_reaches_path_state(a, u, p);
            assert(a.lambda.contains_key((s, u[p]))) by {
                reveal(Model::consistent);
            }
        }
    }
    if has_row(a.lambda, s) {
        let c = choose|c: char| a.lambda.contains_key((s, c));
        assert(a.lambda.contains_key((s, c)) && v <= a.lambda[(s, c)]);
    }
    if !has_row(a.lambda, s) && !a.psi.contains_key(s) {
        if a.has_output(s, v) {
            if exists|c: char| a.lambda.contains_key((s, c)) && a.lambda[(s, c)] == v {
                let c = choose|c: char| a.lambda.contains_key((s, c)) && a.lambda[(s, c)] == v;
                assert(has_row(a.lambda, s));
            }
        }
    }
}

/// A word that follows the path up to a position is, read that far, in the
/// state of the path there.
pub proof fn lemma_reaches_path_state(a: Model, u: Seq<char>, p: int)
    requires
        a.consistent(),
        a.private_path(),
        0 <= p <= a.min_except.len(),
        a.passes(u, p),
    ensures
        a.run(0, u.take(p)) == Some(a.path_state(p)),
{
    reveal(Model::private_path);
    lemma_path_steps(a, p);
}

/// Raising the output of the transition of the path that enters a position
/// raises the output of each word that follows the path that far, and leaves
/// the other outputs alone.
pub proof fn lemma_raise(a: Model, i: int, v: nat)
    requires
        a.sound(),
        1 <= i <= a.min_except.len(),
        a.lambda[(a.path_state(i - 1), a.min_except[i - 1])] + v <= usize::MAX,
    ensures
        a.lambda.contains_key((a.path_state(i - 1), a.min_except[i - 1])),
        a.same_shape(a.raised(i, v)),
        a.raised(i, v).iota == a.iota,
        forall|u: Seq<char>| #[trigger] a.reads(u) ==> a.raised(i, v).output(u) == a.owed(i, v, u),
{
    let s = a.path_state(i - 1);
    let c = a.min_except[i - 1];
    let r = a.raised(i, v);
    assert(a.consistent() && a.private_path());
    assert(a.reads(a.min_except)) by {
        reveal(Model::private_path);
    }
    lemma_path_output_step(a, i - 1);
    assert(a.on_path(s));
    assert(a.same_shape(r));
    assert forall|u: Seq<char>| #[trigger] a.reads(u) implies r.output(u) == a.owed(i, v, u) by {
        lemma_weight_change(a, r, i - 1, u);
        lemma_passes_step(a, u, i);
    }
}

/// A transducer with other outputs along the path, which fit, is sound where
/// the first is; it reads and accepts the same words.
pub proof fn lemma_shape_sound(a: Model, r: Model)
    requires
        a.sound(),
        a.same_shape(r),
        r.fits(),
    ensures
        r.sound(),
        forall|u: Seq<char>| #[trigger] r.reads(u) == a.reads(u),
        forall|u: Seq<char>| #[trigger] r.accepts(u) == a.accepts(u),
        forall|u: Seq<char>, i: int| r.passes(u, i) == a.passes(u, i),
{
    lemma_shape_structure(a, r);
    assert forall|u: Seq<char>| #[trigger] r.reads(u) == a.reads(u) by {
        lemma_run_same_delta(a, r, 0, u);
    }
    assert forall|u: Seq<char>| #[trigger] r.accepts(u) == a.accepts(u) by {
        lemma_run_same_delta(a, r, 0, u);
    }
}

/// A transducer with other outputs along the path of a transducer with other
/// outputs along the path of a third is one of the third.
pub proof fn lemma_shape_trans(a: Model, b: Model, c: Model)
    requires
        a.sound(),
        a.same_shape(b),
        b.same_shape(c),
    ensures
        a.same_shape(c),
{
    lemma_shape_structure(a, b);
    assert forall|k: (usize, char)| a.lambda.contains_key(k) && !a.on_path(k.0)
        implies #[trigger] c.lambda[k]
        == a.lambda[k] by {
        assert(b.lambda.contains_key(k));
        assert(b.on_path(k.0) == a.on_path(k.0));
        assert(b.lambda[k] == a.lambda[k]);
    }
    assert forall|q: usize| a.psi.contains_key(q) && !a.on_path(q)
        implies #[trigger] c.psi[q] == a.psi[q] by {
        assert(b.psi.contains_key(q));
        assert(b.on_path(q) == a.on_path(q));
        assert(b.psi[q] == a.psi[q]);
    }
    assert forall|k: (usize, char)| #[trigger] c.lambda.contains_key(k)
        == a.lambda.contains_key(k) by {
        assert(b.lambda.contains_key(k) == a.lambda.contains_key(k));
    }
    assert forall|q: usize| #[trigger] c.psi.contains_key(q) == a.psi.contains_key(q) by {
        assert(b.psi.contains_key(q) == a.psi.contains_key(q));
    }
}

/// A word that is read and follows the path up to a position before its end
/// that is not final and has no second transition follows it one position
/// further, or ends there.
pub proof fn lemma_single_way(a: Model, u: Seq<char>, i: int)
    requires
        a.sound(),
        1 <= i <= a.min_except.len(),
        !a.is_divergent(a.path_state(i - 1)),
        a.reads(u),
        a.passes(u, i - 1),
    ensures
        a.passes(u, i) || u == a.min_except.take(i - 1),
        !a.accepts(a.min_except.take(i - 1)),
{
    reveal(Model::private_path);
    assert(a.consistent() && a.private_path());
    lemma_path_steps(a, i);
    lemma_path_steps(a, i - 1);
    let s = a.path_state(i - 1);
    if u.len() == i - 1 {
        assert(u.take(i - 1) =~= u);
    } else {
        lemma_run_prefix(a, 0, u, i);
        lemma_run_prefix(a, 0, u, i - 1);
        lemma_run_step(a, 0, u, i - 1);
        lemma_reaches_path_state(a, u, i - 1);
        assert(a.delta.contains_key((s, u[i - 1])));
        assert(a.delta.contains_key((s, a.min_except[i - 1])));
        lemma_passes_step(a, u, i);
    }
}

/// Moving what is owed up the path can be done where it fits, and gives a
/// transducer with other outputs along the path, which fit, and which emits
/// for each word of the dictionary what was owed for it.
pub proof fn lemma_carry_up(a: Model, i: nat, v: nat)
    requires
        a.sound(),
        i <= a.min_except.len(),
        a.owed_fits(i as int, v),
    ensures
        a.can_carry_up(i, v),
        a.same_shape(a.carry_up(i, v)),
        a.carry_up(i, v).fits(),
        forall|u: Seq<char>|
            a.accepts(u) ==> #[trigger] a.carry_up(i, v).output(u) == a.owed(i as int, v, u),
        a.tidy() ==> a.carry_up(i, v).tidy(),
    decreases i,
{
    let r = a.carry_up(i, v);
    assert(a.consistent() && a.private_path());
    assert(a.reads(a.min_except)) by {
        reveal(Model::private_path);
    }
    lemma_run_empty(a, 0);
    let e = Seq::<char>::empty();
    assert(a.reads(e));
    assert(a.passes(e, 0)) by {
        assert(e.take(0) =~= a.min_except.take(0));
    }
    if i == 0 {
        assert(a.owed(0, v, e) <= usize::MAX);
        assert(r == a.topped(v));
        lemma_topped(a, v);
        if a.tidy() {
            lemma_same_outputs_tidy(a, r);
        }
        assert(r.fits()) by {
            reveal(Model::fits);
            assert forall|u: Seq<char>| #[trigger] r.reads(u) implies r.output(u) <= usize::MAX by {
                lemma_run_same_delta(a, r, 0, u);
                assert(a.reads(u));
                assert(a.passes(u, 0)) by {
                    assert(u.take(0) =~= a.min_except.take(0));
                }
                assert(a.owed(0, v, u) <= usize::MAX);
            }
        }
        assert forall|u: Seq<char>| a.accepts(u)
            implies #[trigger] r.output(u) == a.owed(0, v, u) by {
            assert(a.passes(u, 0)) by {
                assert(u.take(0) =~= a.min_except.take(0));
            }
        }
    } else {
        let s = a.path_state(i - 1);
        let c = a.min_except[i - 1];
        let w = a.min_except.take(i as int);
        lemma_path_steps(a, i as int);
        lemma_path_steps(a, i - 1);
        lemma_path_output_step(a, i - 1);
        assert(a.reads(w));
        assert(a.passes(w, i as int)) by {
            assert(w.take(i as int) =~= w);
        }
        assert(a.owed(i as int, v, w) <= usize::MAX);
        if a.is_divergent(s) {
            lemma_raise(a, i as int, v);
            let raised = a.raised(i as int, v);
            assert(raised.fits()) by {
                reveal(Model::fits);
                assert forall|u: Seq<char>| #[trigger] raised.reads(u)
                    implies raised.output(u) <= usize::MAX by {
                    lemma_run_same_delta(a, raised, 0, u);
                    assert(a.reads(u));
                    assert(a.owed(i as int, v, u) <= usize::MAX);
                }
            }
            lemma_shape_sound(a, raised);
            lemma_shape_structure(a, raised);
            assert(raised.path_state(i - 1) == s);
            lemma_extract(raised, i - 1);
            let ex = raised.extract_min_from_state(s);
            let v2 = raised.least_output(s);
            lemma_shape_trans(a, raised, ex);
            assert(raised.lambda.contains_key((s, c)));
            assert(v2 <= raised.lambda[(s, c)]);
            assert(raised.reads(w));
            lemma_path_output_step(raised, i - 1);
            assert(ex.owed_fits(i - 1, v2)) by {
                assert forall|u: Seq<char>| #[trigger] ex.reads(u)
                    implies ex.owed(i - 1, v2, u) <= usize::MAX by {
                    lemma_run_same_delta(raised, ex, 0, u);
                    assert(raised.reads(u));
                    assert(a.reads(u));
                    assert(a.owed(i as int, v, u) <= usize::MAX);
                    if raised.passes(u, i - 1) && !raised.pays_at(u, i - 1) {
                        assert(u.take(i - 1) =~= u);
                        assert(u == raised.min_except.take(i - 1));
                        assert(raised.output(w) <= usize::MAX) by {
                            assert(a.owed(i as int, v, w) <= usize::MAX);
                        }
                    }
                }
            }
            assert(ex.fits()) by {
                reveal(Model::fits);
                assert forall|u: Seq<char>| #[trigger] ex.reads(u)
                    implies ex.output(u) <= usize::MAX by {
                    assert(ex.owed(i - 1, v2, u) <= usize::MAX);
                }
            }
            lemma_shape_sound(a, ex);
            if a.tidy() {
                lemma_raise_tidy(a, i as int, v);
                lemma_extract_tidy(raised, i - 1);
            }
            lemma_carry_up(ex, (i - 1) as nat, v2);
            assert(r == ex.carry_up((i - 1) as nat, v2));
            lemma_shape_trans(a, ex, r);
            assert forall|u: Seq<char>| a.accepts(u)
                implies #[trigger] r.output(u) == a.owed(i as int, v, u) by {
                assert(ex.accepts(u) == a.accepts(u));
                assert(a.reads(u));
                assert(raised.reads(u));
                if raised.passes(u, i - 1) && u.len() == i - 1 {
                    lemma_ends_at(a, u, i - 1);
                    assert(a.psi.contains_key(s)) by {
                        reveal(Model::consistent);
                    }
                }
            }
        } else if s == 0 {
            assert(i == 1) by {
                if i > 1 {
                    assert(a.path_state(i - 1) != 0);
                }
            }
            assert(a.owed(1, v, w) <= usize::MAX);
            assert(r == a.topped(v));
            lemma_topped(a, v);
            if a.tidy() {
                lemma_same_outputs_tidy(a, r);
            }
            assert(r.fits()) by {
                reveal(Model::fits);
                assert forall|u: Seq<char>| #[trigger] r.reads(u)
                    implies r.output(u) <= usize::MAX by {
                    lemma_run_same_delta(a, r, 0, u);
                    assert(a.reads(u));
                    assert(a.passes(u, 0)) by {
                        assert(u.take(0) =~= a.min_except.take(0));
                    }
                    lemma_single_way(a, u, 1);
                    assert(a.owed(1, v, u) <= usize::MAX);
                    if !a.passes(u, 1) {
                        assert(u =~= e);
                        assert(a.min_except.take(0) =~= e);
                        assert(!a.finality.contains(0));
                        assert(!a.psi.contains_key(0)) by {
                            reveal(Model::consistent);
                        }
                    }
                }
            }
            assert forall|u: Seq<char>| a.accepts(u)
                implies #[trigger] r.output(u) == a.owed(1, v, u) by {
                assert(a.passes(u, 0)) by {
                    assert(u.take(0) =~= a.min_except.take(0));
                }
                lemma_single_way(a, u, 1);
            }
        } else {
            assert(a.owed_fits(i - 1, v)) by {
                assert forall|u: Seq<char>| #[trigger] a.reads(u)
                    implies a.owed(i - 1, v, u) <= usize::MAX by {
                    assert(a.owed(i as int, v, u) <= usize::MAX);
                    if a.passes(u, i - 1) {
                        lemma_single_way(a, u, i as int);
                        if !a.passes(u, i as int) {
                            lemma_ends_at(a, u, i - 1);
                            assert(!a.finality.contains(s));
                            assert(!a.psi.contains_key(s)) by {
                                reveal(Model::consistent);
                            }
                        }
                    }
                }
            }
            lemma_carry_up(a, (i - 1) as nat, v);
            assert(r == a.carry_up((i - 1) as nat, v));
            assert forall|u: Seq<char>| a.accepts(u)
                implies #[trigger] r.output(u) == a.owed(i as int, v, u) by {
                if a.passes(u, i - 1) {
                    lemma_single_way(a, u, i as int);
                }
                if a.passes(u, i as int) {
                    lemma_passes_step(a, u, i as int);
                }
            }
        }
    }
}

/// Raising the initial output raises every output.
pub proof fn lemma_topped(a: Model, v: nat)
    requires
        a.iota + v <= usize::MAX,
    ensures
        a.same_shape(a.topped(v)),
        forall|u: Seq<char>| #[trigger] a.topped(v).output(u) == a.output(u) + v || !a.reads(u),
{
    let r = a.topped(v);
    assert forall|u: Seq<char>| #[trigger] r.output(u) == a.output(u) + v || !a.reads(u) by {
        lemma_run_same_delta(a, r, 0, u);
    }
}

/// Making the outputs along the path canonical can be done, keeps the
/// transducer sound and leaves the words of the dictionary and their outputs
/// alone.
pub proof fn lemma_canonicalise(a: Model)
    requires
        a.sound(),
    ensures
        a.can_canonicalise(),
        a.canonicalise_min_except().sound(),
        a.same_shape(a.canonicalise_min_except()),
        forall|u: Seq<char>| #[trigger] a.canonicalise_min_except().accepts(u) == a.accepts(u),
        forall|u: Seq<char>|
            a.accepts(u) ==> #[trigger] a.canonicalise_min_except().output(u) == a.output(u),
        a.alive() && a.early_but(a.last_state()) ==> a.canonicalise_min_except().tidy(),
{
    let n = a.min_except.len();
    let tn = a.last_state();
    let w = a.min_except;
    assert(a.consistent() && a.private_path());
    assert(a.reads(w)) by {
        reveal(Model::private_path);
    }
    assert(w.take(n as int) =~= w);
    assert(a.path_state(n as int) == tn);
    lemma_path_steps(a, n as int);
    lemma_extract(a, n as int);
    let ex = a.extract_min_from_state(tn);
    let v = a.least_output(tn);
    assert(a.passes(w, n as int));
    assert(ex.owed_fits(n as int, v)) by {
        assert forall|u: Seq<char>| #[trigger] ex.reads(u)
            implies ex.owed(n as int, v, u) <= usize::MAX by {
            lemma_run_same_delta(a, ex, 0, u);
            assert(a.reads(u));
            assert(a.output(u) <= usize::MAX) by {
                reveal(Model::fits);
            }
            if a.passes(u, n as int) && !a.pays_at(u, n as int) {
                assert(u.take(n as int) =~= u);
                assert(u == w);
                if has_row(a.lambda, tn) {
                    let c = choose|c: char| #[trigger]
                        a.lambda.contains_key((tn, c)) && v <= a.lambda[(tn, c)];
                    let longer = w.push(c);
                    assert(longer.drop_last() =~= w);
                    lemma_run_last(a, 0, longer);
                    assert(a.delta.contains_key((tn, c))) by {
                        reveal(Model::consistent);
                    }
                    assert(a.reads(longer));
                    assert(a.output(longer) <= usize::MAX) by {
                        reveal(Model::fits);
                    }
                }
            }
        }
    }
    assert(ex.fits()) by {
        reveal(Model::fits);
        assert forall|u: Seq<char>| #[trigger] ex.reads(u) implies ex.output(u) <= usize::MAX by {
            assert(ex.owed(n as int, v, u) <= usize::MAX);
        }
    }
    lemma_shape_sound(a, ex);
    if a.alive() && a.early_but(a.last_state()) {
        lemma_extract_tidy(a, n as int);
    }
    lemma_carry_up(ex, n, v);
    let r = a.canonicalise_min_except();
    assert(r == ex.carry_up(n, v));
    lemma_shape_trans(a, ex, r);
    lemma_shape_sound(a, r);
    assert forall|u: Seq<char>| a.accepts(u) implies #[trigger] r.output(u) == a.output(u) by {
        assert(ex.accepts(u) == a.accepts(u));
        assert(a.reads(u));
        if a.passes(u, n as int) && u.len() == n {
            lemma_ends_at(a, u, n as int);
            assert(a.psi.contains_key(tn)) by {
                reveal(Model::consistent);
            }
        }
    }
}

} // verus!
