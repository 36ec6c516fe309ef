//! Two minimal, tidy transducers that compute the same are the same up to the
//! numbers of their states.

use crate::model::{lemma_run_concat, lemma_run_empty, lemma_run_last, Model};
use crate::proofs::addition::lemma_reads_state;
use crate::proofs::earliest::lemma_zero_witness;
use vstd::prelude::*;

verus! {

impl Model {
    /// Reading `v` from `q` ends in a final state.
    pub open spec fn finishes(self, q: usize, v: Seq<char>) -> bool {
        self.run(q, v) is Some && self.finality.contains(self.run(q, v).unwrap())
    }

    /// What is emitted on the way from `q` along `v` and at its end.
    pub open spec fn rest_output(self, q: usize, v: Seq<char>) -> nat {
        self.weight(q, v) + self.final_output(self.run(q, v).unwrap())
    }

    /// From `x` and from `y` the same words lead to final states, with the same
    /// outputs.
    pub open spec fn same_rest(self, x: usize, y: usize) -> bool {
        forall|v: Seq<char>|
            #![trigger self.finishes(x, v)]
            #![trigger self.finishes(y, v)]
            self.finishes(x, v) == self.finishes(y, v) && (self.finishes(x, v) ==> self.rest_output(
                x,
                v,
            ) == self.rest_output(y, v))
    }
}

/// The two transducers accept the same words and emit the same for them.
pub open spec fn agree(a: Model, b: Model) -> bool {
    forall|u: Seq<char>|
        #![trigger a.accepts(u)]
        #![trigger b.accepts(u)]
        a.accepts(u) == b.accepts(u) && (a.accepts(u) ==> a.output(u) == b.output(u))
}

/// The two transducers are the same up to the numbers of their states: they
/// have the same initial output and read the same words; what they emit along
/// a word and at its end is the same, and so is whether they accept it; and two
/// words lead to one state in the one exactly if they do in the other.
pub open spec fn isomorphic(a: Model, b: Model) -> bool {
    &&& a.iota == b.iota
    &&& forall|u: Seq<char>|
        #![trigger a.reads(u)]
        #![trigger b.reads(u)]
        a.reads(u) == b.reads(u) && (a.reads(u) ==> {
            &&& a.lambda_star(u) == b.lambda_star(u)
            &&& a.accepts(u) == b.accepts(u)
            &&& a.final_output(a.state_after(u)) == b.final_output(b.state_after(u))
        })
    &&& forall|u: Seq<char>, v: Seq<char>|
        #![trigger a.state_after(u), a.state_after(v)]
        #![trigger b.state_after(u), b.state_after(v)]
        a.reads(u) && a.reads(v) ==> (a.state_after(u) == a.state_after(v)) == (b.state_after(u)
            == b.state_after(v))
}

/// Reading one label and then a word is one step and then reading the word.
pub proof fn lemma_run_first(m: Model, q: usize, c: char, v: Seq<char>)
    ensures
        m.run(q, seq![c] + v) == (if m.delta.contains_key((q, c)) {
            m.run(m.delta[(q, c)], v)
        } else {
            None
        }),
        m.delta.contains_key((q, c)) ==> m.weight(q, seq![c] + v) == m.edge_output(q, c) + m.weight(
            m.delta[(q, c)],
            v,
        ),
{
    let one = seq![c];
    lemma_run_concat(m, q, one, v);
    lemma_run_last(m, q, one);
    lemma_run_empty(m, q);
    assert(one.drop_last() =~= Seq::<char>::empty());
    assert(one.last() == c);
}

/// In a tidy transducer whose states are ranked, a word leads from every state
/// to a final state and emits nothing on the way and at its end.
pub proof fn lemma_zero_path(m: Model, rank: spec_fn(usize) -> nat, q: usize) -> (v: Seq<char>)
    requires
        m.consistent(),
        m.tidy(),
        m.ranks(rank),
        m.states.contains(q),
    ensures
        m.finishes(q, v),
        m.rest_output(q, v) == 0,
    decreases rank(q),
{
    reveal(Model::early);
    reveal(Model::consistent);
    assert(m.has_output(q, 0));
    let c = lemma_zero_witness(m, q);
    if m.psi.contains_key(q) && m.psi[q] == 0 {
        lemma_run_empty(m, q);
        Seq::<char>::empty()
    } else {
        assert(m.silent_edge(q, c));
        assert(m.delta.contains_key((q, c)));
        let d = m.delta[(q, c)];
        let rest = lemma_zero_path(m, rank, d);
        lemma_run_first(m, q, c, rest);
        seq![c] + rest
    }
}

/// A word is accepted where its first part is read and its second part leads
/// from there to a final state; it then emits what the first part has emitted
/// and what the second part emits from there.
pub proof fn lemma_split(m: Model, u: Seq<char>, v: Seq<char>)
    ensures
        m.accepts(u + v) == (m.reads(u) && m.finishes(m.state_after(u), v)),
        m.reads(u + v) == (m.reads(u) && m.run(m.state_after(u), v) is Some),
        m.reads(u + v) ==> m.state_after(u + v) == m.run(m.state_after(u), v).unwrap(),
        m.reads(u + v) ==> m.output(u + v) == m.prefix_output(u) + m.rest_output(m.state_after(u),
            v),
{
    lemma_run_concat(m, 0, u, v);
}

/// What a minimal, tidy transducer reads is read by one that accepts the same words.
pub proof fn lemma_reads_agree(a: Model, b: Model, u: Seq<char>)
    requires
        a.minimal(),
        a.tidy(),
        agree(a, b),
        a.reads(u),
    ensures
        b.reads(u),
        a.prefix_output(u) >= b.prefix_output(u),
{
    reveal(Model::ranked);
    let rank = choose|rank: spec_fn(usize) -> nat| a.ranks(rank);
    lemma_reads_state(a, u);
    let v = lemma_zero_path(a, rank, a.state_after(u));
    lemma_split(a, u, v);
    lemma_split(b, u, v);
    assert(a.accepts(u + v));
    assert(b.accepts(u + v));
}

/// Two minimal, tidy transducers that compute the same read the same words and
/// have emitted the same after each.
pub proof fn lemma_prefix_agree(a: Model, b: Model, u: Seq<char>)
    requires
        a.minimal(),
        a.tidy(),
        b.minimal(),
        b.tidy(),
        agree(a, b),
    ensures
        a.reads(u) == b.reads(u),
        a.reads(u) ==> a.prefix_output(u) == b.prefix_output(u),
{
    assert(agree(b, a));
    if a.reads(u) {
        lemma_reads_agree(a, b, u);
        lemma_reads_agree(b, a, u);
    }
    if b.reads(u) {
        lemma_reads_agree(b, a, u);
        lemma_reads_agree(a, b, u);
    }
}

/// In two minimal, tidy transducers that compute the same the same words lead
/// on from a word to final states, with the same outputs.
pub proof fn lemma_rest_agree(a: Model, b: Model, u: Seq<char>, v: Seq<char>)
    requires
        a.minimal(),
        a.tidy(),
        b.minimal(),
        b.tidy(),
        agree(a, b),
        a.reads(u),
    ensures
        b.reads(u),
        a.finishes(a.state_after(u), v) == b.finishes(b.state_after(u), v),
        a.finishes(a.state_after(u), v) ==> a.rest_output(a.state_after(u), v) == b.rest_output(
            b.state_after(u),
            v,
        ),
{
    lemma_prefix_agree(a, b, u);
    lemma_split(a, u, v);
    lemma_split(b, u, v);
    assert(a.accepts(u + v) == b.accepts(u + v));
}

/// Where the same words lead on from two states, with the same outputs, a
/// transition of the first on a label is matched by one of the second that
/// emits no more.
pub proof fn lemma_step_matched(b: Model, rank: spec_fn(usize) -> nat, x: usize, y: usize, c: char)
    requires
        b.consistent(),
        b.tidy(),
        b.ranks(rank),
        b.same_rest(x, y),
        b.delta.contains_key((x, c)),
    ensures
        b.delta.contains_key((y, c)),
        b.edge_output(y, c) <= b.edge_output(x, c),
{
    let d = b.delta[(x, c)];
    assert(b.states.contains(d)) by {
        reveal(Model::consistent);
    }
    let z = lemma_zero_path(b, rank, d);
    lemma_run_first(b, x, c, z);
    lemma_run_first(b, y, c, z);
    assert(b.finishes(x, seq![c] + z));
    assert(b.finishes(y, seq![c] + z));
}

/// Where the same words lead on from two states, with the same outputs, the
/// same words lead on from the states that they enter on a label, with the
/// same outputs.
pub proof fn lemma_step_same_rest(b: Model, x: usize, y: usize, c: char)
    requires
        b.same_rest(x, y),
        b.delta.contains_key((x, c)),
        b.delta.contains_key((y, c)),
        b.edge_output(x, c) == b.edge_output(y, c),
    ensures
        b.same_rest(b.delta[(x, c)], b.delta[(y, c)]),
{
    let dx = b.delta[(x, c)];
    let dy = b.delta[(y, c)];
    assert forall|v: Seq<char>|
        #![trigger b.finishes(dx, v)]
        #![trigger b.finishes(dy, v)]
        b.finishes(dx, v) == b.finishes(dy, v) && (b.finishes(dx, v) ==> b.rest_output(dx, v)
            == b.rest_output(dy, v)) by {
        lemma_run_first(b, x, c, v);
        lemma_run_first(b, y, c, v);
        assert(b.finishes(x, seq![c] + v) == b.finishes(y, seq![c] + v));
    }
}

/// In a minimal, tidy transducer two states from which the same words lead on,
/// with the same outputs, are one state.
pub proof fn lemma_same_state(b: Model, rank: spec_fn(usize) -> nat, x: usize, y: usize)
    requires
        b.minimal(),
        b.tidy(),
        b.ranks(rank),
        b.states.contains(x),
        b.states.contains(y),
        b.same_rest(x, y),
    ensures
        x == y,
    decreases rank(x),
{
    let e = Seq::<char>::empty();
    lemma_run_empty(b, x);
    lemma_run_empty(b, y);
    assert(b.finishes(x, e) == b.finishes(y, e));
    assert(b.same_rest(y, x));
    assert forall|c: char|
        b.delta.contains_key((x, c)) == b.delta.contains_key((y, c))
            && (b.delta.contains_key((x, c))
            ==> b.delta[(x, c)] == b.delta[(y, c)] && b.lambda[(x, c)] == b.lambda[(y, c)]) by {
        if b.delta.contains_key((x, c)) {
            lemma_step_matched(b, rank, x, y, c);
            lemma_step_matched(b, rank, y, x, c);
        }
        if b.delta.contains_key((y, c)) {
            lemma_step_matched(b, rank, y, x, c);
            lemma_step_matched(b, rank, x, y, c);
        }
        if b.delta.contains_key((x, c)) {
            lemma_step_same_rest(b, x, y, c);
            reveal(Model::consistent);
            lemma_same_state(b, rank, b.delta[(x, c)], b.delta[(y, c)]);
        }
    }
    assert(b.signature(x) == b.signature(y)) by {
        reveal(Model::consistent);
        assert(b.signature(x).transitions =~= b.signature(y).transitions);
    }
    assert(b.registered(x));
    assert(b.registered(y));
}

/// Two words that lead to one state in a transducer lead to one state in a
/// minimal, tidy transducer that accepts the same words and emits the same for
/// them, if it reads them.
pub proof fn lemma_same_image(a: Model, b: Model, u1: Seq<char>, u2: Seq<char>)
    requires
        a.minimal(),
        a.tidy(),
        agree(a, b),
        a.reads(u1),
        a.reads(u2),
        b.state_after(u1) == b.state_after(u2),
    ensures
        b.reads(u1),
        b.reads(u2),
        a.state_after(u1) == a.state_after(u2),
{
    reveal(Model::ranked);
    let rank = choose|rank: spec_fn(usize) -> nat| a.ranks(rank);
    lemma_reads_agree(a, b, u1);
    lemma_reads_agree(a, b, u2);
    lemma_reads_state(a, u1);
    lemma_reads_state(a, u2);
    let x = a.state_after(u1);
    let y = a.state_after(u2);
    let v1 = lemma_zero_path(a, rank, x);
    let v2 = lemma_zero_path(a, rank, y);
    lemma_split(a, u1, v1);
    lemma_split(b, u1, v1);
    lemma_split(a, u2, v1);
    lemma_split(b, u2, v1);
    assert(a.accepts(u1 + v1) == b.accepts(u1 + v1));
    assert(a.accepts(u2 + v1) == b.accepts(u2 + v1));
    lemma_split(a, u1, v2);
    lemma_split(b, u1, v2);
    lemma_split(a, u2, v2);
    lemma_split(b, u2, v2);
    assert(a.accepts(u1 + v2) == b.accepts(u1 + v2));
    assert(a.accepts(u2 + v2) == b.accepts(u2 + v2));
    assert(a.prefix_output(u1) - b.prefix_output(u1) == a.prefix_output(u2) - b.prefix_output(u2));
    assert forall|v: Seq<char>|
        #![trigger a.finishes(x, v)]
        #![trigger a.finishes(y, v)]
        a.finishes(x, v) == a.finishes(y, v) && (a.finishes(x, v) ==> a.rest_output(x, v)
            == a.rest_output(y, v)) by {
        lemma_split(a, u1, v);
        lemma_split(b, u1, v);
        lemma_split(a, u2, v);
        lemma_split(b, u2, v);
        assert(a.accepts(u1 + v) == b.accepts(u1 + v));
        assert(a.accepts(u2 + v) == b.accepts(u2 + v));
    }
    lemma_same_state(a, rank, x, y);
}

/// Two minimal, tidy transducers that accept the same words and emit the same
/// for them are the same up to the numbers of their states.
pub proof fn lemma_unique(a: Model, b: Model)
    requires
        a.minimal(),
        a.tidy(),
        b.minimal(),
        b.tidy(),
        agree(a, b),
    ensures
        isomorphic(a, b),
{
    let e = Seq::<char>::empty();
    lemma_run_empty(a, 0);
    lemma_run_empty(b, 0);
    lemma_prefix_agree(a, b, e);
    assert forall|u: Seq<char>|
        #![trigger a.reads(u)]
        #![trigger b.reads(u)]
        a.reads(u) == b.reads(u) && (a.reads(u) ==> {
            &&& a.lambda_star(u) == b.lambda_star(u)
            &&& a.accepts(u) == b.accepts(u)
            &&& a.final_output(a.state_after(u)) == b.final_output(b.state_after(u))
        }) by {
        lemma_prefix_agree(a, b, u);
        if a.reads(u) {
            assert(a.accepts(u) == b.accepts(u));
            reveal(Model::consistent);
        }
    }
    assert(agree(b, a));
    assert forall|u: Seq<char>, v: Seq<char>|
        #![trigger a.state_after(u), a.state_after(v)]
        #![trigger b.state_after(u), b.state_after(v)]
        a.reads(u) && a.reads(v) implies (a.state_after(u) == a.state_after(v)) == (b.state_after(u)
            == b.state_after(v)) by {
        lemma_prefix_agree(a, b, u);
        lemma_prefix_agree(a, b, v);
        if a.state_after(u) == a.state_after(v) {
            lemma_same_end(a, b, u, v);
        }
        if b.state_after(u) == b.state_after(v) {
            lemma_same_end(b, a, u, v);
        }
    }
}

/// In two minimal, tidy transducers that compute the same, two words that lead
/// to one state in the first lead to one state in the second.
pub proof fn lemma_same_end(a: Model, b: Model, u: Seq<char>, v: Seq<char>)
    requires
        a.minimal(),
        a.tidy(),
        b.minimal(),
        b.tidy(),
        agree(a, b),
        a.reads(u),
        a.reads(v),
        a.state_after(u) == a.state_after(v),
    ensures
        b.reads(u),
        b.reads(v),
        b.state_after(u) == b.state_after(v),
{
    lemma_prefix_agree(a, b, u);
    lemma_prefix_agree(a, b, v);
    let x = b.state_after(u);
    let y = b.state_after(v);
    assert forall|z: Seq<char>|
        #![trigger b.finishes(x, z)]
        #![trigger b.finishes(y, z)]
        b.finishes(x, z) == b.finishes(y, z) && (b.finishes(x, z) ==> b.rest_output(x, z)
            == b.rest_output(y, z)) by {
        lemma_rest_agree(a, b, u, z);
        lemma_rest_agree(a, b, v, z);
    }
    reveal(Model::ranked);
    let rank = choose|rank: spec_fn(usize) -> nat| b.ranks(rank);
    lemma_reads_state(b, u);
    lemma_reads_state(b, v);
    lemma_same_state(b, rank, x, y);
}

} // verus!
