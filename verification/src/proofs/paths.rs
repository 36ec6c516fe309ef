//! Facts about the private path and about transducers that simulate each other.

use crate::model::{
    is_greatest, lemma_greatest, lemma_run_empty, lemma_run_last, lemma_run_prefix, lemma_run_step,
    Model,
};
use vstd::prelude::*;

verus! {

/// The state that the transducer `b` is in where `a` is in `x`, and `None` for `None`.
pub open spec fn image(phi: spec_fn(usize) -> usize, x: Option<usize>) -> Option<usize> {
    match x {
        Some(q) => Some(phi(q)),
        None => None,
    }
}

/// One step of `a` from `x` on `c` is one step of `b` from `phi(x)` on `c`, with
/// the same output.
pub open spec fn step_ok(a: Model, b: Model, phi: spec_fn(usize) -> usize, x: usize,
    c: char) -> bool {
    &&& a.delta.contains_key((x, c)) <==> b.delta.contains_key((phi(x), c))
    &&& a.delta.contains_key((x, c)) ==> phi(a.delta[(x, c)]) == b.delta[(phi(x), c)]
    &&& a.edge_output(x, c) == b.edge_output(phi(x), c)
}

/// `b` does from `phi(x)` what `a` does from `x`, for every state `x`.
pub open spec fn simulates(a: Model, b: Model, phi: spec_fn(usize) -> usize) -> bool {
    forall|x: usize, c: char| #[trigger] step_ok(a, b, phi, x, c)
}

/// Where each step of `a` is a step of `b`, each run of `a` is a run of `b`.
pub proof fn lemma_simulation(a: Model, b: Model, phi: spec_fn(usize) -> usize, q: usize,
    w: Seq<char>)
    requires
        simulates(a, b, phi),
    ensures
        b.run(phi(q), w) == image(phi, a.run(q, w)),
        b.weight(phi(q), w) == a.weight(q, w),
    decreases w.len(),
{
    if w.len() == 0 {
        lemma_run_empty(a, q);
        lemma_run_empty(b, phi(q));
        assert(w =~= Seq::<char>::empty());
    } else {
        lemma_simulation(a, b, phi, q, w.drop_last());
        lemma_run_last(a, q, w);
        lemma_run_last(b, phi(q), w);
        match a.run(q, w.drop_last()) {
            Some(x) => {
                assert(step_ok(a, b, phi, x, w.last()));
            },
            None => {},
        }
    }
}

/// Along the private path each state is reached by the transition of the path
/// from the state before it, and no state but the first is the initial state.
pub proof fn lemma_path_steps(m: Model, i: int)
    requires
        m.consistent(),
        m.reads(m.min_except),
        0 <= i <= m.min_except.len(),
    ensures
        m.run(0, m.min_except.take(i)) == Some(m.path_state(i)),
        i == 0 ==> m.path_state(i) == 0,
        i > 0 ==> m.path_state(i) != 0 && m.delta.contains_key(
            (m.path_state(i - 1), m.min_except[i - 1]),
        ) && m.delta[(m.path_state(i - 1), m.min_except[i - 1])] == m.path_state(i),
        m.states.contains(m.path_state(i)),
{
    reveal(Model::consistent);
    lemma_run_prefix(m, 0, m.min_except, i);
    if i == 0 {
        lemma_run_empty(m, 0);
        assert(m.min_except.take(0) =~= Seq::<char>::empty());
    } else {
        lemma_run_prefix(m, 0, m.min_except, i - 1);
        lemma_run_step(m, 0, m.min_except, i - 1);
    }
}

/// The states along the private path are pairwise different.
pub proof fn lemma_path_distinct(m: Model, i: int, j: int)
    requires
        m.consistent(),
        m.private_path(),
        0 <= i < j <= m.min_except.len(),
    ensures
        m.path_state(i) != m.path_state(j),
    decreases i,
{
    reveal(Model::private_path);
    lemma_path_steps(m, i);
    lemma_path_steps(m, j);
    if i > 0 {
        lemma_path_distinct(m, i - 1, j - 1);
        if m.path_state(i) == m.path_state(j) {
            let k = (m.path_state(j - 1), m.min_except[j - 1]);
            assert(m.delta.contains_key(k) && m.delta[k] == m.path_state(i));
            assert(k == (m.path_state(i - 1), m.min_except[i - 1]));
        }
    }
}

/// A transition that enters a state of the private path leaves the state before
/// it on the path.
pub proof fn lemma_enters_path(m: Model, k: (usize, char), i: int)
    requires
        m.consistent(),
        m.private_path(),
        0 <= i <= m.min_except.len(),
        m.delta.contains_key(k),
        m.delta[k] == m.path_state(i),
    ensures
        i > 0,
        k == (m.path_state(i - 1), m.min_except[i - 1]),
{
    reveal(Model::consistent);
    reveal(Model::private_path);
    lemma_path_steps(m, i);
}

impl Model {
    /// The position on the path of a state that lies on it.
    pub open spec fn path_index(self, q: usize) -> int {
        choose|i: int| 0 <= i <= self.min_except.len() && #[trigger] self.path_state(i) == q
    }
}

/// A state of the private path lies at one position of it.
pub proof fn lemma_path_index(m: Model, i: int)
    requires
        m.consistent(),
        m.private_path(),
        0 <= i <= m.min_except.len(),
    ensures
        m.on_path(m.path_state(i)),
        m.path_index(m.path_state(i)) == i,
{
    let j = m.path_index(m.path_state(i));
    assert(m.path_state(i) == m.path_state(i));
    if j < i {
        lemma_path_distinct(m, j, i);
    } else if i < j {
        lemma_path_distinct(m, i, j);
    }
}

/// A state that lies on the path is the state at its position.
pub proof fn lemma_on_path(m: Model, q: usize)
    requires
        m.on_path(q),
    ensures
        0 <= m.path_index(q) <= m.min_except.len(),
        m.path_state(m.path_index(q)) == q,
{
}

/// A state of the private path is reached by its prefix of `min_except` and by
/// no other word.
pub proof fn lemma_reaches_path(m: Model, u: Seq<char>, i: int)
    requires
        m.consistent(),
        m.private_path(),
        0 <= i <= m.min_except.len(),
        m.run(0, u) == Some(m.path_state(i)),
    ensures
        u == m.min_except.take(i),
    decreases u.len(),
{
    reveal(Model::private_path);
    lemma_path_steps(m, i);
    if u.len() == 0 {
        lemma_run_empty(m, 0);
        assert(u =~= Seq::<char>::empty());
        if i > 0 {
            assert(m.path_state(i) != 0);
        }
        assert(m.min_except.take(0) =~= u);
    } else {
        lemma_run_last(m, 0, u);
        let x = m.run(0, u.drop_last()).unwrap();
        let k = (x, u.last());
        assert(m.delta.contains_key(k) && m.delta[k] == m.path_state(i));
        lemma_enters_path(m, k, i);
        lemma_path_steps(m, i - 1);
        lemma_reaches_path(m, u.drop_last(), i - 1);
        assert(m.min_except.take(i) =~= m.min_except.take(i - 1).push(m.min_except[i - 1]));
        assert(u =~= u.drop_last().push(u.last()));
    }
}

/// A set of machine words that is not empty has a greatest element.
pub proof fn lemma_greatest_exists(set: Set<usize>, x: usize)
    requires
        set.contains(x),
    ensures
        is_greatest(set, crate::model::greatest(set)),
        x <= crate::model::greatest(set),
    decreases usize::MAX - x,
{
    if is_greatest(set, x) {
        lemma_greatest(set, x);
    } else {
        let y = choose|y: usize| set.contains(y) && !(y <= x);
        lemma_greatest_exists(set, y);
    }
}

} // verus!
