//! Taking a label from `min_except` keeps the transducer sound and leaves what
//! it computes alone.

use crate::model::{lemma_run_same_delta, Model, SignatureView};
use crate::proofs::paths::{
    image, lemma_enters_path, lemma_path_distinct, lemma_path_steps, lemma_simulation, simulates,
    step_ok,
};
use crate::wellformed::{equivalent, lemma_equivalent_refl, lemma_equivalent_trans};
use vstd::prelude::*;

verus! {

impl Model {
    /// The state of the path before the last.
    pub open spec fn state_before_last(self) -> usize {
        self.state_after(self.min_except.drop_last())
    }

    /// The last state of the path is to be merged into another state.
    pub open spec fn merges(self) -> bool {
        self.state_eq(self.last_state()) is Some
    }

    /// The state that the last state of the path is merged into.
    pub open spec fn twin(self) -> usize {
        self.index[self.signature(self.last_state())]
    }
}

/// The state that a state becomes when the last state of the path is merged into
/// its twin.
pub open spec fn merged_into(t: usize, q: usize) -> spec_fn(usize) -> usize {
    |x: usize|
        if x == t {
            q
        } else {
            x
        }
}

/// What holds at the end of the private path.
pub proof fn lemma_path_end(m: Model)
    requires
        m.inv(),
        m.min_except.len() > 0,
    ensures
        m.last_state() == m.path_state(m.min_except.len() as int),
        m.state_before_last() == m.path_state(m.min_except.len() - 1),
        m.last_state() != 0,
        m.last_state() != m.state_before_last(),
        m.states.contains(m.last_state()),
        m.on_path(m.last_state()),
        m.on_path(m.state_before_last()),
        m.delta.contains_key((m.state_before_last(), m.min_except.last())),
        m.delta[(m.state_before_last(), m.min_except.last())] == m.last_state(),
        forall|k: (usize, char)| #[trigger]
            m.delta.contains_key(k) && m.delta[k] == m.last_state() ==> k == (
                m.state_before_last(),
                m.min_except.last(),
            ),
        m.has_outputs_at(m.last_state()),
        m.reducible(),
{
    reveal(Model::consistent);
    reveal(Model::private_path);
    let n = m.min_except.len() as int;
    assert(m.min_except.take(n) =~= m.min_except);
    assert(m.min_except.take(n - 1) =~= m.min_except.drop_last());
    lemma_path_steps(m, n);
    lemma_path_steps(m, n - 1);
    lemma_path_distinct(m, n - 1, n);
    assert(m.path_state(n) == m.last_state());
    assert(m.path_state(n - 1) == m.state_before_last());
    assert forall|k: (usize, char)| #[trigger]
        m.delta.contains_key(k) && m.delta[k] == m.last_state() implies k == (
        m.state_before_last(),
        m.min_except.last(),
    ) by {
        lemma_enters_path(m, k, n);
    }
}

/// What holds of the twin that the last state of the path is merged into.
pub proof fn lemma_twin(m: Model)
    requires
        m.inv(),
        m.min_except.len() > 0,
        m.merges(),
    ensures
        m.twin() != m.last_state(),
        m.twin() != 0,
        m.states.contains(m.twin()),
        !m.on_path(m.twin()),
        m.twin() != m.state_before_last(),
        m.signature(m.twin()) == m.signature(m.last_state()),
        m.psi.contains_key(m.twin()) == m.psi.contains_key(m.last_state()),
        m.psi.contains_key(m.twin()) ==> m.psi[m.twin()] == m.psi[m.last_state()],
        m.finality.contains(m.twin()) == m.finality.contains(m.last_state()),
        forall|c: char|
            #![trigger m.delta.contains_key((m.twin(), c))]
            #![trigger m.delta.contains_key((m.last_state(), c))]
            {
                &&& m.delta.contains_key((m.twin(), c)) == m.delta.contains_key((m.last_state(), c))
                &&& m.delta.contains_key((m.twin(), c)) ==> m.delta[(m.twin(), c)] == m.delta[(
                    m.last_state(),
                    c,
                )] && m.lambda[(m.twin(), c)] == m.lambda[(m.last_state(), c)]
            },
{
    reveal(Model::consistent);
    reveal(Model::index_exact);
    lemma_path_end(m);
    lemma_path_steps(m, 0);
    assert(m.on_path(0)) by {
        assert(m.path_state(0) == 0);
    }
    let t = m.last_state();
    let q = m.twin();
    let s = m.signature(t);
    assert(m.index.contains_key(s));
    assert(m.signature(q) == s);
    assert(m.signature(q).final_output == m.signature(t).final_output);
    assert forall|c: char|
        #![trigger m.delta.contains_key((q, c))]
        #![trigger m.delta.contains_key((t, c))]
        {
            &&& m.delta.contains_key((q, c)) == m.delta.contains_key((t, c))
            &&& m.delta.contains_key((q, c)) ==> m.delta[(q, c)] == m.delta[(t, c)] && m.lambda[(
                q,
                c,
            )] == m.lambda[(t, c)]
        } by {
        assert(m.signature(q).transitions.contains_key(c)
            == m.signature(t).transitions.contains_key(c));
        if m.delta.contains_key((q, c)) {
            assert(m.alphabet.contains(c));
            assert(m.signature(q).transitions.contains_key(c));
            assert(m.signature(q).transitions[c] == m.signature(t).transitions[c]);
        }
        if m.delta.contains_key((t, c)) {
            assert(m.alphabet.contains(c));
            assert(m.signature(t).transitions.contains_key(c));
            assert(m.signature(q).transitions[c] == m.signature(t).transitions[c]);
        }
    }
}

/// The model after a merge, written out.
pub proof fn lemma_merge_result(m: Model)
    requires
        m.inv(),
        m.min_except.len() > 0,
        m.merges(),
    ensures
        m.reduce_step().alphabet == m.alphabet,
        m.reduce_step().states == m.states.remove(m.last_state()),
        m.reduce_step().finality == m.finality.remove(m.last_state()),
        m.reduce_step().psi == m.psi.remove(m.last_state()),
        m.reduce_step().iota == m.iota,
        m.reduce_step().index == m.index,
        m.reduce_step().min_except == m.min_except.drop_last(),
        m.reduce_step().delta == Map::new(
            |k: (usize, char)| m.delta.contains_key(k) && k.0 != m.last_state(),
            |k: (usize, char)|
                if k == (m.state_before_last(), m.min_except.last()) {
                    m.twin()
                } else {
                    m.delta[k]
                },
        ),
        m.reduce_step().lambda == Map::new(
            |k: (usize, char)| m.lambda.contains_key(k) && k.0 != m.last_state(),
            |k: (usize, char)| m.lambda[k],
        ),
        m.reduce_step().delta_inv == Set::new(
            |e: (usize, char, usize)|
                (m.delta_inv.contains(e) && e.0 != m.last_state()
                    && e.2 != m.last_state()) || e == (
                    m.twin(),
                    m.min_except.last(),
                    m.state_before_last(),
                ),
        ),
{
    reveal(Model::consistent);
    lemma_path_end(m);
    lemma_twin(m);
    let t = m.last_state();
    let p = m.state_before_last();
    let a = m.min_except.last();
    let q = m.twin();
    let r = m.reduce_step();
    assert forall|k: (usize, char)| m.delta.contains_key(k)
        implies (m.enters(k, t) <==> k == (p, a)) by {
        if m.enters(k, t) {
            assert(m.delta_inv.contains((t, k.1, k.0)));
        }
        if k == (p, a) {
            assert(m.delta_inv.contains((m.delta[k], k.1, k.0)));
        }
    }
    assert forall|k: (usize, char)| m.lambda.contains_key(k)
        implies (m.enters(k, t) <==> k == (p, a)) by {
        assert(m.delta.contains_key(k));
    }
    assert(r.delta =~= Map::new(
        |k: (usize, char)| m.delta.contains_key(k) && k.0 != t,
        |k: (usize, char)|
            if k == (p, a) {
                q
            } else {
                m.delta[k]
            },
    ));
    assert(r.lambda =~= Map::new(
        |k: (usize, char)| m.lambda.contains_key(k) && k.0 != t,
        |k: (usize, char)| m.lambda[k],
    ));
    assert(r.delta_inv =~= Set::new(
        |e: (usize, char, usize)|
            (m.delta_inv.contains(e) && e.0 != t && e.2 != t) || e == (q, a, p),
    )) by {
        assert forall|e: (usize, char, usize)| m.delta_inv.contains(e) && e.2 == t
            implies (m.delta.contains_key((t, e.1))
            && !m.enters((t, e.1), t) && m.delta[(t, e.1)] == e.0) by {
            assert(m.delta.contains_key((e.2, e.1)));
        }
    }
}

/// After a merge the transducer does from the twin what it did from the merged
/// state, and from every other state what it did before.
pub proof fn lemma_merge_simulates(m: Model)
    requires
        m.inv(),
        m.min_except.len() > 0,
        m.merges(),
    ensures
        simulates(m, m.reduce_step(), merged_into(m.last_state(), m.twin())),
{
    reveal(Model::consistent);
    lemma_path_end(m);
    lemma_twin(m);
    lemma_merge_result(m);
    let t = m.last_state();
    let p = m.state_before_last();
    let a = m.min_except.last();
    let q = m.twin();
    let r = m.reduce_step();
    let phi = merged_into(t, q);
    assert forall|x: usize, c: char| #[trigger] step_ok(m, r, phi, x, c) by {
        if x == t {
            assert(m.delta.contains_key((q, c)) == m.delta.contains_key((t, c)));
            if m.delta.contains_key((t, c)) {
                assert(m.lambda.contains_key((t, c)));
                assert(m.lambda.contains_key((q, c)));
                if m.delta[(t, c)] == t {
                    assert((t, c) == (p, a));
                }
            } else {
                if m.lambda.contains_key((t, c)) {
                    assert(m.delta.contains_key((t, c)));
                }
                if m.lambda.contains_key((q, c)) {
                    assert(m.delta.contains_key((q, c)));
                }
            }
        } else {
            if m.delta.contains_key((x, c)) {
                assert(m.lambda.contains_key((x, c)));
                if m.delta[(x, c)] == t {
                    assert((x, c) == (p, a));
                }
            } else {
                if m.lambda.contains_key((x, c)) {
                    assert(m.delta.contains_key((x, c)));
                }
            }
        }
    }
}

/// After a merge every word is read as before, but that the twin stands where
/// the merged state stood.
pub proof fn lemma_merge_runs(m: Model, w: Seq<char>)
    requires
        m.inv(),
        m.min_except.len() > 0,
        m.merges(),
    ensures
        m.reduce_step().run(0, w) == image(merged_into(m.last_state(), m.twin()), m.run(0, w)),
        m.reduce_step().weight(0, w) == m.weight(0, w),
{
    lemma_path_end(m);
    lemma_merge_simulates(m);
    lemma_simulation(m, m.reduce_step(), merged_into(m.last_state(), m.twin()), 0, w);
}

/// A merge leaves what the transducer computes alone.
pub proof fn lemma_merge_equivalent(m: Model)
    requires
        m.inv(),
        m.min_except.len() > 0,
        m.merges(),
    ensures
        equivalent(m, m.reduce_step()),
{
    lemma_path_end(m);
    lemma_twin(m);
    lemma_merge_result(m);
    let r = m.reduce_step();
    assert forall|w: Seq<char>|
        #![trigger m.reads(w)]
        #![trigger r.reads(w)]
        {
            &&& m.reads(w) == r.reads(w)
            &&& m.reads(w) ==> m.output(w) == r.output(w) && m.accepts(w) == r.accepts(w)
        } by {
        lemma_merge_runs(m, w);
    }
}

/// A merge keeps the path private, one state shorter.
pub proof fn lemma_merge_path(m: Model)
    requires
        m.inv(),
        m.min_except.len() > 0,
        m.merges(),
    ensures
        m.reduce_step().private_path(),
        forall|i: int|
            0 <= i < m.min_except.len()
                ==> #[trigger] m.reduce_step().path_state(i) == m.path_state(i),
        forall|x: usize| #[trigger] m.reduce_step().on_path(x)
            ==> m.on_path(x) && x != m.last_state(),
        forall|x: usize| m.on_path(x) && x != m.last_state()
            ==> #[trigger] m.reduce_step().on_path(x),
{
    reveal(Model::private_path);
    lemma_path_end(m);
    lemma_twin(m);
    lemma_merge_result(m);
    let r = m.reduce_step();
    let n = m.min_except.len() as int;
    let t = m.last_state();
    assert forall|i: int| 0 <= i < n implies #[trigger] r.path_state(i) == m.path_state(i) by {
        assert(r.min_except.take(i) =~= m.min_except.take(i));
        lemma_merge_runs(m, m.min_except.take(i));
        lemma_path_steps(m, i);
        lemma_path_distinct(m, i, n);
    }
    assert(r.reads(r.min_except)) by {
        assert(r.min_except =~= m.min_except.take(n - 1));
        lemma_merge_runs(m, m.min_except.take(n - 1));
        lemma_path_steps(m, n - 1);
    }
    assert forall|k: (usize, char), i: int|
        #![trigger r.delta.contains_key(k), r.path_state(i)]
        r.delta.contains_key(k) && 1 <= i <= r.min_except.len()
            && r.delta[k] == r.path_state(i) implies k == (
        r.state_after(r.min_except.take(i - 1)),
        r.min_except[i - 1],
    ) by {
        assert(r.path_state(i) == m.path_state(i));
        assert(r.path_state(i - 1) == m.path_state(i - 1));
        if k == (m.state_before_last(), m.min_except.last()) {
            assert(m.on_path(m.twin()));
        } else {
            lemma_enters_path(m, k, i);
        }
    }
    assert forall|x: usize| #[trigger] r.on_path(x) implies m.on_path(x) && x != t by {
        let i = choose|i: int| 0 <= i <= r.min_except.len() && #[trigger] r.path_state(i) == x;
        assert(r.path_state(i) == m.path_state(i));
        lemma_path_distinct(m, i, n);
    }
    assert forall|x: usize| m.on_path(x) && x != t implies #[trigger] r.on_path(x) by {
        let i = choose|i: int| 0 <= i <= m.min_except.len() && #[trigger] m.path_state(i) == x;
        assert(r.path_state(i) == m.path_state(i));
    }
}

/// A merge keeps the store consistent.
pub proof fn lemma_merge_consistent(m: Model)
    requires
        m.inv(),
        m.min_except.len() > 0,
        m.merges(),
    ensures
        m.reduce_step().consistent(),
{
    reveal(Model::consistent);
    lemma_path_end(m);
    lemma_twin(m);
    lemma_merge_result(m);
    let r = m.reduce_step();
    let t = m.last_state();
    let p = m.state_before_last();
    let a = m.min_except.last();
    let q = m.twin();
    assert forall|k: (usize, char)| #[trigger] r.delta.contains_key(k) implies {
        &&& r.lambda.contains_key(k)
        &&& r.states.contains(k.0)
        &&& r.states.contains(r.delta[k])
        &&& r.alphabet.contains(k.1)
        &&& r.delta[k] != 0
        &&& r.delta_inv.contains((r.delta[k], k.1, k.0))
    } by {
        assert(m.delta.contains_key(k));
        if k != (p, a) {
            if m.delta[k] == t {
                assert(k == (p, a));
            }
        }
    }
    assert forall|e: (usize, char, usize)| #[trigger] r.delta_inv.contains(e)
        implies r.delta.contains_key(
        (e.2, e.1),
    ) && r.delta[(e.2, e.1)] == e.0 by {
        if e != (q, a, p) {
            assert(m.delta_inv.contains(e));
            assert(m.delta.contains_key((e.2, e.1)));
        }
    }
    assert forall|k: (usize, char)| #[trigger] r.lambda.contains_key(k)
        implies r.delta.contains_key(k) by {
        assert(m.lambda.contains_key(k));
    }
    assert forall|x: usize| #[trigger] r.psi.contains_key(x) implies r.finality.contains(x) by {
        assert(m.psi.contains_key(x));
    }
    assert forall|x: usize| #[trigger] r.finality.contains(x)
        implies r.psi.contains_key(x) && r.states.contains(x) by {
        assert(m.finality.contains(x));
    }
}

/// Off the path a merge leaves the signatures alone.
pub proof fn lemma_merge_signature(m: Model, x: usize)
    requires
        m.inv(),
        m.min_except.len() > 0,
        m.merges(),
        !m.on_path(x),
    ensures
        m.reduce_step().signature(x) == m.signature(x),
{
    reveal(Model::consistent);
    lemma_path_end(m);
    lemma_twin(m);
    lemma_merge_result(m);
    let r = m.reduce_step();
    assert(r.signature(x).transitions =~= m.signature(x).transitions);
}

/// A merge keeps the index exact.
pub proof fn lemma_merge_index(m: Model)
    requires
        m.inv(),
        m.min_except.len() > 0,
        m.merges(),
    ensures
        m.reduce_step().index_exact(),
{
    reveal(Model::index_exact);
    lemma_path_end(m);
    lemma_twin(m);
    lemma_merge_result(m);
    lemma_merge_path(m);
    let r = m.reduce_step();
    let t = m.last_state();
    assert forall|x: usize| #[trigger] r.states.contains(x) && !r.on_path(x)
        implies r.registered(x) by {
        assert(m.states.contains(x));
        assert(!m.on_path(x));
        lemma_merge_signature(m, x);
        assert(m.registered(x));
    }
    assert forall|s: SignatureView| #[trigger] r.index.contains_key(s) implies {
        &&& r.states.contains(r.index[s])
        &&& r.signature(r.index[s]) == s
        &&& !r.on_path(r.index[s])
    } by {
        assert(m.index.contains_key(s));
        lemma_merge_signature(m, m.index[s]);
    }
}

/// A step that registers the last state of the path keeps the transducer sound
/// and leaves what it computes alone.
pub proof fn lemma_register(m: Model)
    requires
        m.inv(),
        m.min_except.len() > 0,
        !m.merges(),
    ensures
        m.reduce_step().inv(),
        equivalent(m, m.reduce_step()),
        m.reduce_step().delta == m.delta,
        m.reduce_step().states == m.states,
        forall|i: int|
            0 <= i < m.min_except.len()
                ==> #[trigger] m.reduce_step().path_state(i) == m.path_state(i),
{
    reveal(Model::consistent);
    reveal(Model::private_path);
    reveal(Model::index_exact);
    reveal(Model::fits);
    lemma_path_end(m);
    let r = m.reduce_step();
    let n = m.min_except.len() as int;
    let t = m.last_state();
    assert forall|w: Seq<char>|
        #![trigger m.reads(w)]
        #![trigger r.reads(w)]
        {
            &&& m.reads(w) == r.reads(w)
            &&& m.reads(w) ==> m.output(w) == r.output(w) && m.accepts(w) == r.accepts(w)
        } by {
        lemma_run_same_delta(m, r, 0, w);
    }
    assert forall|i: int| 0 <= i < n implies #[trigger] r.path_state(i) == m.path_state(i) by {
        assert(r.min_except.take(i) =~= m.min_except.take(i));
        lemma_run_same_delta(m, r, 0, m.min_except.take(i));
    }
    assert(r.reads(r.min_except)) by {
        assert(r.min_except =~= m.min_except.take(n - 1));
        lemma_run_same_delta(m, r, 0, m.min_except.take(n - 1));
        lemma_path_steps(m, n - 1);
    }
    assert forall|k: (usize, char), i: int|
        #![trigger r.delta.contains_key(k), r.path_state(i)]
        r.delta.contains_key(k) && 1 <= i <= r.min_except.len()
            && r.delta[k] == r.path_state(i) implies k == (
        r.state_after(r.min_except.take(i - 1)),
        r.min_except[i - 1],
    ) by {
        assert(r.path_state(i) == m.path_state(i));
        assert(r.path_state(i - 1) == m.path_state(i - 1));
        lemma_enters_path(m, k, i);
    }
    assert forall|x: usize| #[trigger] r.on_path(x) implies m.on_path(x) && x != t by {
        let i = choose|i: int| 0 <= i <= r.min_except.len() && #[trigger] r.path_state(i) == x;
        assert(r.path_state(i) == m.path_state(i));
        lemma_path_distinct(m, i, n);
    }
    assert forall|x: usize| m.on_path(x) && x != t implies #[trigger] r.on_path(x) by {
        let i = choose|i: int| 0 <= i <= m.min_except.len() && #[trigger] m.path_state(i) == x;
        assert(r.path_state(i) == m.path_state(i));
    }
    assert forall|x: usize| r.signature(x) == m.signature(x) by {
        assert(r.signature(x).transitions =~= m.signature(x).transitions);
    }
    assert forall|x: usize| #[trigger] r.states.contains(x) && !r.on_path(x)
        implies r.registered(x) by {
        assert(r.signature(x) == m.signature(x));
        if x != t {
            assert(!m.on_path(x));
            assert(m.registered(x));
            if m.signature(x) == m.signature(t) {
                assert(m.state_eq(t) is Some);
            }
        }
    }
    assert forall|s: SignatureView| #[trigger] r.index.contains_key(s) implies {
        &&& r.states.contains(r.index[s])
        &&& r.signature(r.index[s]) == s
        &&& !r.on_path(r.index[s])
    } by {
        assert(r.signature(r.index[s]) == m.signature(r.index[s]));
        if s != m.signature(t) {
            assert(m.index.contains_key(s));
        } else {
            if r.on_path(t) {
                assert(m.on_path(t) && t != t);
            }
        }
    }
    assert(r.fits()) by {
        assert forall|w: Seq<char>| #[trigger] r.reads(w) implies r.output(w) <= usize::MAX by {
            assert(m.reads(w));
        }
    }
}

/// Taking a label from `min_except` can be done, keeps the transducer sound and
/// leaves what it computes alone: it reads the same words, gives them the same
/// outputs and accepts the same ones.
pub proof fn lemma_reduce_step(m: Model)
    requires
        m.inv(),
        m.min_except.len() > 0,
    ensures
        m.reducible(),
        m.reduce_step().inv(),
        equivalent(m, m.reduce_step()),
        m.reduce_step().min_except == m.min_except.drop_last(),
        forall|i: int|
            0 <= i < m.min_except.len()
                ==> #[trigger] m.reduce_step().path_state(i) == m.path_state(i),
        forall|i: int, c: char|
            0 <= i < m.min_except.len() ==> (#[trigger] m.reduce_step().delta.contains_key(
                (m.path_state(i), c),
            ) <==> m.delta.contains_key((m.path_state(i), c))),
        forall|x: usize| #[trigger] m.reduce_step().states.contains(x) ==> m.states.contains(x),
{
    reveal(Model::fits);
    lemma_path_end(m);
    let r = m.reduce_step();
    let n = m.min_except.len() as int;
    if m.merges() {
        lemma_twin(m);
        lemma_merge_result(m);
        lemma_merge_equivalent(m);
        lemma_merge_path(m);
        lemma_merge_consistent(m);
        lemma_merge_index(m);
        assert(r.fits()) by {
            assert forall|w: Seq<char>| #[trigger] r.reads(w) implies r.output(w) <= usize::MAX by {
                assert(m.reads(w));
            }
        }
        assert forall|i: int, c: char| 0 <= i < n
            implies (#[trigger] r.delta.contains_key((m.path_state(i), c))
            <==> m.delta.contains_key((m.path_state(i), c))) by {
            lemma_path_distinct(m, i, n);
        }
    } else {
        lemma_register(m);
    }
}

/// Taking `k` labels from `min_except` can be done, keeps the transducer sound
/// and leaves what it computes alone. The rest of the path keeps its states,
/// and they keep the labels on which they have transitions.
pub proof fn lemma_reduce_by(m: Model, k: nat)
    requires
        m.inv(),
        k <= m.min_except.len(),
    ensures
        m.reducible_by(k),
        m.reduce_by(k).inv(),
        equivalent(m, m.reduce_by(k)),
        m.reduce_by(k).min_except == m.min_except.take(m.min_except.len() - k),
        m.reduce_by(k).iota == m.iota,
        forall|i: int|
            0 <= i <= m.min_except.len() - k
                ==> #[trigger] m.reduce_by(k).path_state(i) == m.path_state(i),
        forall|i: int, c: char|
            0 <= i <= m.min_except.len() - k ==> (#[trigger] m.reduce_by(k).delta.contains_key(
                (m.path_state(i), c),
            ) <==> m.delta.contains_key((m.path_state(i), c))),
        forall|x: usize| #[trigger] m.reduce_by(k).states.contains(x) ==> m.states.contains(x),
    decreases k,
{
    let n = m.min_except.len();
    if k == 0 {
        assert(m.min_except.take(n as int) =~= m.min_except);
        lemma_equivalent_refl(m);
    } else {
        lemma_reduce_by(m, (k - 1) as nat);
        let b = m.reduce_by((k - 1) as nat);
        lemma_reduce_step(b);
        let r = b.reduce_step();
        lemma_equivalent_trans(m, b, r);
        assert(r.min_except =~= m.min_except.take(n - k));
        assert forall|i: int| 0 <= i <= n - k
            implies #[trigger] r.path_state(i) == m.path_state(i) by {
            assert(b.path_state(i) == m.path_state(i));
        }
        assert forall|i: int, c: char| 0 <= i <= n - k
            implies (#[trigger] r.delta.contains_key((m.path_state(i), c))
            <==> m.delta.contains_key((m.path_state(i), c))) by {
            assert(b.path_state(i) == m.path_state(i));
            assert(r.delta.contains_key((b.path_state(i), c))
                <==> b.delta.contains_key((b.path_state(i), c)));
            assert(b.delta.contains_key((m.path_state(i), c))
                <==> m.delta.contains_key((m.path_state(i), c)));
        }
        assert forall|x: usize| #[trigger] r.states.contains(x) implies m.states.contains(x) by {
            assert(b.states.contains(x));
        }
    }
}

} // verus!
