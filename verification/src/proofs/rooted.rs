//! Every state is reached from the initial state, and no state from itself.

use crate::model::{lemma_run_empty, lemma_run_last, lemma_run_same_delta, Model, SignatureView};
use crate::proofs::addition::{
    lemma_add_entry_in_order, lemma_extended_fields, lemma_extended_old_word, lemma_extended_path,
    lemma_last_state_bound, lemma_old_edges, lemma_ready,
};
use crate::proofs::paths::{lemma_enters_path, lemma_path_steps, lemma_simulation};
use crate::proofs::reduction::{
    lemma_merge_result, lemma_merge_simulates, lemma_path_end, lemma_reduce_by, lemma_twin,
    merged_into,
};
use crate::proofs::single::lemma_single_path;
use crate::wellformed::{equivalent, lemma_equivalent_trans, lemma_ranked_acyclic, lemma_ranked_sub};
use vstd::prelude::*;

verus! {

/// Two states with the same transitions read the same words, but the empty
/// one, into the same states.
pub proof fn lemma_same_row_runs(m: Model, x: usize, y: usize, u: Seq<char>)
    requires
        forall|c: char|
            #![trigger m.delta.contains_key((x, c))]
            #![trigger m.delta.contains_key((y, c))]
            m.delta.contains_key((x, c)) == m.delta.contains_key((y, c)) && (m.delta.contains_key(
                (x, c),
            ) ==> m.delta[(x, c)] == m.delta[(y, c)]),
        u.len() > 0,
    ensures
        m.run(x, u) == m.run(y, u),
    decreases u.len(),
{
    lemma_run_last(m, x, u);
    lemma_run_last(m, y, u);
    if u.len() == 1 {
        lemma_run_empty(m, x);
        lemma_run_empty(m, y);
        assert(u.drop_last() =~= Seq::<char>::empty());
    } else {
        lemma_same_row_runs(m, x, y, u.drop_last());
    }
}

/// No state but the initial one has the signature of the initial state.
pub proof fn lemma_root_signature(m: Model, x: usize)
    requires
        m.consistent(),
        m.rooted(),
        m.states.contains(x),
        x != 0,
    ensures
        m.signature(x) != m.signature(0),
{
    reveal(Model::consistent);
    reveal(Model::accessible);
    lemma_ranked_acyclic(m);
    reveal(Model::acyclic);
    if m.signature(x) == m.signature(0) {
        let u = choose|u: Seq<char>| m.run(0, u) == Some(x);
        assert(m.reachable(x));
        if u.len() == 0 {
            lemma_run_empty(m, 0);
            assert(u =~= Seq::<char>::empty());
        }
        assert forall|c: char|
            #![trigger m.delta.contains_key((x, c))]
            #![trigger m.delta.contains_key((0usize, c))]
            m.delta.contains_key((x, c)) == m.delta.contains_key((0usize, c))
                && (m.delta.contains_key(
                (x, c),
            ) ==> m.delta[(x, c)] == m.delta[(0usize, c)]) by {
            assert(m.signature(x).transitions.contains_key(c)
                == m.signature(0).transitions.contains_key(c));
            if m.delta.contains_key((x, c)) {
                assert(m.alphabet.contains(c));
                assert(m.signature(x).transitions.contains_key(c));
                assert(m.signature(x).transitions[c] == m.signature(0).transitions[c]);
            }
            if m.delta.contains_key((0usize, c)) {
                assert(m.alphabet.contains(c));
                assert(m.signature(0).transitions.contains_key(c));
                assert(m.signature(x).transitions[c] == m.signature(0).transitions[c]);
            }
        }
        lemma_same_row_runs(m, x, 0, u);
        assert(m.run(x, u) == Some(x));
    }
}

/// The transducer of one word is rooted.
pub proof fn lemma_single_rooted(word: Seq<char>, out: usize)
    requires
        word.len() <= usize::MAX,
    ensures
        Model::single(word, out).rooted(),
{
    reveal(Model::accessible);
    let m = Model::single(word, out);
    assert forall|x: usize| #[trigger] m.states.contains(x) implies m.reachable(x) by {
        lemma_single_path(word, out, x as int);
    }
    assert(m.ranked()) by {
        reveal(Model::ranked);
        let rank = |x: usize| (word.len() - x) as nat;
        assert(m.ranks(rank));
    }
}

/// Taking a label from `min_except` keeps the transducer rooted.
pub proof fn lemma_reduce_step_rooted(m: Model)
    requires
        m.inv(),
        m.rooted(),
        m.min_except.len() > 0,
    ensures
        m.reduce_step().rooted(),
{
    reveal(Model::accessible);
    let r = m.reduce_step();
    lemma_path_end(m);
    if m.merges() {
        lemma_twin(m);
        lemma_merge_result(m);
        lemma_merge_simulates(m);
        let t = m.last_state();
        let q = m.twin();
        let phi = merged_into(t, q);
        assert forall|x: usize| #[trigger] r.states.contains(x) implies r.reachable(x) by {
            assert(m.reachable(x));
            let u = choose|u: Seq<char>| m.run(0, u) == Some(x);
            lemma_simulation(m, r, phi, 0, u);
        }
        assert(r.ranked()) by {
            reveal(Model::ranked);
            let rank = choose|rank: spec_fn(usize) -> nat| m.ranks(rank);
            let lifted = |x: usize|
                if m.on_path(x) {
                    rank(x) + rank(q) + 1
                } else {
                    rank(x)
                };
            assert forall|k: (usize, char)| #[trigger] r.delta.contains_key(k)
                implies lifted(k.0) > lifted(
                r.delta[k],
            ) by {
                assert(m.delta.contains_key(k));
                if k != (m.state_before_last(), m.min_except.last()) {
                    if m.on_path(m.delta[k]) {
                        let i = choose|i: int|
                            0 <= i <= m.min_except.len()
                                && #[trigger] m.path_state(i) == m.delta[k];
                        lemma_enters_path(m, k, i);
                        assert(m.on_path(k.0));
                    }
                }
            }
            assert(r.ranks(lifted));
        }
    } else {
        assert forall|x: usize| #[trigger] r.states.contains(x) implies r.reachable(x) by {
            assert(m.reachable(x));
            let u = choose|u: Seq<char>| m.run(0, u) == Some(x);
            lemma_run_same_delta(m, r, 0, u);
        }
        lemma_ranked_sub(m, r);
    }
}

/// Taking `k` labels from `min_except` keeps the transducer rooted.
pub proof fn lemma_reduce_by_rooted(m: Model, k: nat)
    requires
        m.inv(),
        m.rooted(),
        k <= m.min_except.len(),
    ensures
        m.reduce_by(k).rooted(),
    decreases k,
{
    if k > 0 {
        lemma_reduce_by_rooted(m, (k - 1) as nat);
        lemma_reduce_by(m, (k - 1) as nat);
        lemma_reduce_step_rooted(m.reduce_by((k - 1) as nat));
    }
}

/// Inserting a word into a base that is ready for it keeps the transducer rooted.
pub proof fn lemma_extended_rooted(b: Model, w: Seq<char>, out: usize)
    requires
        b.ready_for(w),
        b.rooted(),
    ensures
        b.extended(w, out).rooted(),
{
    reveal(Model::accessible);
    reveal(Model::private_path);
    let r = b.extended(w, out);
    lemma_extended_fields(b, w, out);
    lemma_last_state_bound(b);
    assert forall|x: usize| #[trigger] r.states.contains(x) implies r.reachable(x) by {
        if b.states.contains(x) {
            assert(b.reachable(x));
            let u = choose|u: Seq<char>| b.run(0, u) == Some(x);
            lemma_extended_old_word(b, w, out, u);
        } else {
            let i = x - b.max_state() + b.min_except.len();
            lemma_extended_path(b, w, out, i);
        }
    }
    assert(r.ranked()) by {
        reveal(Model::ranked);
        reveal(Model::consistent);
        lemma_old_edges(b, w);
        let rank = choose|rank: spec_fn(usize) -> nat| b.ranks(rank);
        let n = w.len();
        let top = b.max_state();
        let lifted = |x: usize|
            if b.is_new_state(w, x) {
                (top + n - x) as nat
            } else if b.on_path(x) {
                rank(x) + n + 1
            } else {
                rank(x)
            };
        assert forall|k: (usize, char)| #[trigger] r.delta.contains_key(k)
            implies lifted(k.0) > lifted(
            r.delta[k],
        ) by {
            if b.is_new_edge(w, n as int, k) {
                let e = b.edge_index(k.0);
                assert(b.is_new_state(w, b.new_state(e + 1)));
                if k.0 == b.last_state() {
                    assert(b.min_except.take(b.min_except.len() as int) =~= b.min_except);
                    assert(b.path_state(b.min_except.len() as int) == k.0);
                    assert(b.on_path(k.0));
                }
            } else {
                assert(b.delta.contains_key(k));
                assert(b.states.contains(k.0) && b.states.contains(b.delta[k]));
                if b.on_path(b.delta[k]) {
                    let i = choose|i: int|
                        0 <= i <= b.min_except.len() && #[trigger] b.path_state(i) == b.delta[k];
                    lemma_enters_path(b, k, i);
                    assert(b.on_path(k.0));
                }
            }
        }
        assert(r.ranks(lifted));
    }
}

/// Reducing the path altogether and registering the initial state can be
/// done, makes the transducer minimal and leaves what it computes alone.
pub proof fn lemma_reduce_to_epsilon(m: Model)
    requires
        m.sound(),
    ensures
        m.reducible_to_epsilon(),
        m.reduce_to_epsilon().minimal(),
        equivalent(m, m.reduce_to_epsilon()),
        m.reduce_to_epsilon().max_state() <= m.max_state(),
{
    let n = m.min_except.len();
    lemma_reduce_by(m, n);
    lemma_reduce_by_rooted(m, n);
    let b = m.reduce_by(n);
    let r = m.reduce_to_epsilon();
    assert(b.min_except.len() == 0);
    assert(b.has_outputs_at(0)) by {
        reveal(Model::consistent);
    }
    assert(equivalent(b, r)) by {
        assert forall|w: Seq<char>|
            #![trigger b.reads(w)]
            #![trigger r.reads(w)]
            {
                &&& b.reads(w) == r.reads(w)
                &&& b.reads(w) ==> b.output(w) == r.output(w) && b.accepts(w) == r.accepts(w)
            } by {
            lemma_run_same_delta(b, r, 0, w);
        }
    }
    lemma_equivalent_trans(m, b, r);
    assert(r.consistent()) by {
        reveal(Model::consistent);
    }
    assert(r.fits()) by {
        reveal(Model::fits);
        assert forall|u: Seq<char>| #[trigger] r.reads(u) implies r.output(u) <= usize::MAX by {
            assert(b.reads(u));
        }
    }
    assert(r.rooted()) by {
        reveal(Model::accessible);
        assert forall|x: usize| #[trigger] r.states.contains(x) implies r.reachable(x) by {
            assert(b.reachable(x));
            let u = choose|u: Seq<char>| b.run(0, u) == Some(x);
            lemma_run_same_delta(b, r, 0, u);
        }
        lemma_ranked_sub(b, r);
    }
    assert forall|x: usize| r.signature(x) == b.signature(x) by {
        assert(r.signature(x).transitions =~= b.signature(x).transitions);
    }
    reveal(Model::index_exact);
    reveal(Model::private_path);
    lemma_path_steps(b, 0);
    assert forall|x: usize| b.on_path(x) implies x == 0 by {
        let i = choose|i: int| 0 <= i <= b.min_except.len() && #[trigger] b.path_state(i) == x;
    }
    assert forall|x: usize| #[trigger] r.states.contains(x) implies r.registered(x) by {
        assert(r.signature(x) == b.signature(x));
        assert(r.signature(0) == b.signature(0));
        if x != 0 {
            lemma_root_signature(b, x);
            assert(!b.on_path(x));
            assert(b.registered(x));
        }
    }
    assert forall|s: SignatureView| #[trigger] r.index.contains_key(s) implies r.states.contains(
        r.index[s],
    ) && r.signature(r.index[s]) == s by {
        assert(r.signature(r.index[s]) == b.signature(r.index[s]));
        if s != b.signature(0) {
            assert(b.index.contains_key(s));
        } else {
            assert(r.index[s] == 0);
            assert(b.states.contains(0)) by {
                reveal(Model::consistent);
            }
        }
    }
    crate::proofs::addition::lemma_last_state_bound(b);
    crate::proofs::addition::lemma_last_state_bound(m);
    assert(m.states.contains(b.max_state()));
}

/// Inserting a word after the entries so far keeps the transducer rooted.
pub proof fn lemma_add_entry_in_order_rooted(m: Model, w: Seq<char>, out: usize)
    requires
        m.sound(),
        m.insertable(w),
        m.max_state() + (w.len() - crate::utils::common_prefix_len(m.min_except, w)) <= usize::MAX,
    ensures
        m.add_entry_in_order(w, out).sound(),
{
    lemma_ready(m, w);
    lemma_add_entry_in_order(m, w, out);
    let k = crate::utils::common_prefix_len(m.min_except, w);
    lemma_reduce_by_rooted(m, (m.min_except.len() - k) as nat);
    lemma_extended_rooted(m.reduce_by((m.min_except.len() - k) as nat), w, out);
}

} // verus!
