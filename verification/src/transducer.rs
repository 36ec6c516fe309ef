//! The transducer: its store, the primitive edits on it, and the operations
//! that insert and delete words while keeping it minimal.

use crate::inverse::Inverse;
use crate::laws::lemma_transition_count;
use crate::model::{
    lemma_degrees_grow, lemma_greatest, lemma_reducible_by_fewer, lemma_run_empty, lemma_run_prefix,
    lemma_run_step, Model,
};
use crate::proofs::addition::lemma_single_frontier;
use crate::proofs::earliest::{
    lemma_reduce_by_tidy, lemma_reduce_step_tidy, lemma_reduce_to_epsilon_tidy, lemma_single_tidy,
};
use crate::proofs::reduction::{lemma_reduce_by, lemma_reduce_step};
use crate::proofs::rooted::{
    lemma_reduce_by_rooted, lemma_reduce_step_rooted, lemma_reduce_to_epsilon, lemma_single_rooted,
};
use crate::proofs::single::lemma_single;
use crate::signature::{Alphabet, Signature, SignatureIndex};
use crate::states::{greatest_state, has_state, insert_state, remove_state};
use crate::utils::{
    add_to_or_insert, lemma_row_push, lemma_row_value, lemma_take_contains, lemma_take_row_has,
    remove_from_or_delete, row_distinct, row_has, row_value, Table,
};
use crate::wellformed::{equivalent, lemma_reads_outputs};
use std::collections::{BTreeSet, HashMap};
use vstd::prelude::*;
use vstd::string::StrSliceExecFns;

verus! {

broadcast use vstd::std_specs::hash::group_hash_axioms;

/// A subsequential transducer with the word along which it may fail to be minimal.
///
/// The parts are open to the caller, who can put them together at will; what
/// the operations promise, they promise of a transducer that is `wf` and whose
/// model is sound or minimal, as their contracts say.
pub struct Transducer {
    /// The labels seen so far.
    pub alphabet: Alphabet,
    /// The states. A new state gets the number after the greatest one.
    pub states: BTreeSet<usize>,
    /// The final states.
    pub finality: BTreeSet<usize>,
    /// The initial state, which is always 0.
    pub init_state: usize,
    /// The transitions: the target for a state and a label.
    pub delta: Table,
    /// The transitions by the state that they enter.
    pub delta_inv: Inverse,
    /// The outputs of the transitions.
    pub lambda: Table,
    /// The initial output.
    pub iota: usize,
    /// The final outputs.
    pub psi: HashMap<usize, usize>,
    /// The word along which the transducer may fail to be minimal.
    pub min_except: Vec<char>,
    /// The states off the path by their signatures.
    pub states_by_signature: SignatureIndex,
}

impl View for Transducer {
    type V = Model;

    open spec fn view(&self) -> Model {
        Model {
            alphabet: self.alphabet@,
            states: self.states@,
            finality: self.finality@,
            delta: self.delta@,
            delta_inv: self.delta_inv@,
            lambda: self.lambda@,
            iota: self.iota,
            psi: self.psi@,
            min_except: self.min_except@,
            index: self.states_by_signature@,
        }
    }
}

/// The characters of `s`, in order.
pub fn chars_of(s: &str) -> (v: Vec<char>)
    ensures
        v@ == s@,
{
    let n = s.unicode_len();
    let mut v: Vec<char> = Vec::new();
    let mut i: usize = 0;
    while i < n
        invariant
            i <= n,
            n == s@.len(),
            v@ == s@.take(i as int),
        decreases n - i,
    {
        v.push(s.get_char(i));
        assert(v@ =~= s@.take(i + 1));
        i += 1;
    }
    assert(s@.take(n as int) =~= s@);
    v
}

impl Transducer {
    /// The parts are soundly represented and the initial state is 0.
    pub open spec fn wf(&self) -> bool {
        &&& self.delta.wf()
        &&& self.delta_inv.wf()
        &&& self.lambda.wf()
        &&& self.states_by_signature.wf()
        &&& self.init_state == 0
    }

    /// The states.
    pub fn get_states(&self) -> (r: &BTreeSet<usize>)
        ensures
            r@ == self@.states,
    {
        &self.states
    }

    /// The final states.
    pub fn get_finality(&self) -> (r: &BTreeSet<usize>)
        ensures
            r@ == self@.finality,
    {
        &self.finality
    }

    /// The initial output.
    pub fn get_initial_output(&self) -> (r: usize)
        ensures
            r == self@.iota,
    {
        self.iota
    }

    /// The number of transitions: of those that leave the states up to the
    /// greatest one, which in a consistent transducer are all. The number must
    /// fit the machine word; it is no greater than the number of states up to
    /// the greatest one, times the number of characters.
    pub fn get_number_of_transitions(&self) -> (n: usize)
        requires
            self.wf(),
            self@.transition_count() <= usize::MAX,
        ensures
            n == self@.transition_count(),
            self@.consistent() ==> n == self@.delta.dom().len(),
    {
        proof {
            if self@.consistent() {
                lemma_transition_count(self@);
            }
        }
        let max_state: usize = match greatest_state(&self.states) {
            Some(m) => *m,
            None => 0,
        };
        proof {
            if self@.states.contains(max_state) {
                lemma_greatest(self@.states, max_state);
            }
        }
        let mut n: usize = 0;
        let mut q: usize = 0;
        let mut done = false;
        while !done
            invariant
                self.wf(),
                q <= max_state,
                max_state == self@.max_state(),
                self@.transition_count() <= usize::MAX,
                !done ==> n == self@.degrees_below(q as nat),
                done ==> n == self@.transition_count(),
            decreases max_state - q, (if done { 0int } else { 1int }),
        {
            proof {
                lemma_degrees_grow(self@, (q + 1) as nat, (max_state + 1) as nat);
            }
            n = n + self.delta.degree(q);
            if q == max_state {
                done = true;
            } else {
                q += 1;
            }
        }
        n
    }

    /// Checks if a state is convergent: more than one transition enters it.
    pub fn is_state_convergent(&self, state: usize) -> (r: bool)
        requires
            self.wf(),
        ensures
            r == self@.is_convergent(state),
    {
        match self.delta_inv.row(state) {
            Some(row) => {
                proof {
                    if row@.len() > 1 {
                        assert(row@.contains(row@[0]));
                        assert(row@.contains(row@[1]));
                        assert(self@.delta_inv.contains((state, row@[0].0, row@[0].1)));
                        assert(self@.delta_inv.contains((state, row@[1].0, row@[1].1)));
                    } else {
                        assert forall|c1: char, s1: usize, c2: char, s2: usize|
                            self@.delta_inv.contains((state, c1, s1)) && self@.delta_inv.contains(
                                (state, c2, s2),
                            ) implies (c1, s1) == (c2, s2) by {
                            assert(row@.contains((c1, s1)));
                            assert(row@.contains((c2, s2)));
                        }
                    }
                }
                row.len() > 1
            },
            None => false,
        }
    }

    /// Checks if a state is final or has more than one outgoing transition.
    pub fn is_state_divergent(&self, state: &usize) -> (r: bool)
        requires
            self.wf(),
        ensures
            r == self@.is_divergent(*state),
    {
        let many = match self.delta.row(*state) {
            Some(row) => {
                proof {
                    if row@.len() > 1 {
                        lemma_row_value(row@, 0);
                        lemma_row_value(row@, 1);
                        assert(row@[0].0 != row@[1].0);
                        assert(self@.delta.contains_key((*state, row@[0].0)));
                        assert(self@.delta.contains_key((*state, row@[1].0)));
                    } else {
                        assert forall|c1: char, c2: char|
                            self@.delta.contains_key((*state, c1)) && self@.delta.contains_key(
                                (*state, c2),
                            ) implies c1 == c2 by {
                            assert(row_has(row@, c1));
                            assert(row_has(row@, c2));
                            let j1 = choose|j: int| 0 <= j < row@.len()
                                && (#[trigger] row@[j]).0 == c1;
                            let j2 = choose|j: int| 0 <= j < row@.len()
                                && (#[trigger] row@[j]).0 == c2;
                        }
                    }
                }
                row.len() > 1
            },
            None => false,
        };
        assert(many == exists|c1: char, c2: char|
            c1 != c2 && self@.delta.contains_key((*state, c1)) && self@.delta.contains_key(
                (*state, c2),
            ));
        many || has_state(&self.finality, *state)
    }

    /// Finds the state sequence that corresponds to a given word.
    pub fn state_sequence(&self, w: &Vec<char>) -> (path: Vec<usize>)
        requires
            self.wf(),
            self@.reads(w@),
        ensures
            path@ == self@.state_sequence(w@),
    {
        let mut next = self.init_state;
        let mut path: Vec<usize> = Vec::new();
        path.push(next);
        let mut i: usize = 0;
        proof {
            lemma_run_empty(self@, 0);
            assert(w@.take(0) =~= Seq::<char>::empty());
        }
        while i < w.len()
            invariant
                i <= w.len(),
                self.wf(),
                self@.reads(w@),
                self@.run(0, w@.take(i as int)) == Some(next),
                path@.len() == i + 1,
                forall|j: int| 0 <= j <= i ==> path@[j] == self@.state_after(w@.take(j)),
            decreases w.len() - i,
        {
            proof {
                lemma_run_step(self@, 0, w@, i as int);
                lemma_run_prefix(self@, 0, w@, i + 1);
            }
            match self.delta.get(next, w[i]) {
                Some(q) => {
                    next = q;
                },
                None => {},
            }
            path.push(next);
            i += 1;
        }
        assert(path@ =~= self@.state_sequence(w@));
        path
    }

    /// Adds a transition, in place of the one that left `q1` on `a` if there was
    /// one. The inverse relation follows: it loses the record of the transition
    /// that was replaced and gains the record of the new one, so that it holds
    /// exactly the transitions afterwards if it did before. The outputs are
    /// left alone.
    pub fn add_delta_transition(&mut self, q1: usize, a: char, q2: usize)
        requires
            old(self).wf(),
        ensures
            final(self).wf(),
            final(self)@ == old(self)@.add_delta_transition(q1, a, q2),
            final(self)@.delta == old(self)@.delta.insert((q1, a), q2),
            old(self)@.inverts() ==> final(self)@.inverts(),
    {
        match self.delta.get(q1, a) {
            Some(q0) => {
                self.delta_inv.remove(q0, a, q1);
            },
            None => {},
        }
        add_to_or_insert(&mut self.delta, q1, a, q2);
        self.delta_inv.insert(q2, a, q1);
        proof {
            let m = old(self)@;
            let r = self@;
            if m.inverts() {
                assert forall|e: (usize, char, usize)| #[trigger]
                    r.delta_inv.contains(e) <==> (r.delta.contains_key((e.2, e.1))
                        && r.delta[(e.2, e.1)] == e.0) by {
                    assert(m.delta_inv.contains(e) <==> (m.delta.contains_key((e.2, e.1))
                        && m.delta[(e.2, e.1)] == e.0));
                }
            }
        }
    }

    /// Returns the accumulated transition output for a given word.
    pub fn lambda_star(&self, word: &Vec<char>) -> (output: usize)
        requires
            self.wf(),
            self@.consistent(),
            self@.fits(),
            self@.reads(word@),
        ensures
            output == self@.lambda_star(word@),
    {
        proof {
            lemma_reads_outputs(self@, word@);
        }
        let mut output: usize = 0;
        let mut state = self.init_state;
        let mut i: usize = 0;
        proof {
            lemma_run_empty(self@, 0);
            assert(word@.take(0) =~= Seq::<char>::empty());
        }
        while i < word.len()
            invariant
                i <= word.len(),
                self.wf(),
                self@.reads(word@),
                self@.has_outputs_along(word@),
                self@.lambda_star(word@) <= usize::MAX,
                self@.run(0, word@.take(i as int)) == Some(state),
                output == self@.weight(0, word@.take(i as int)),
            decreases word.len() - i,
        {
            proof {
                lemma_run_step(self@, 0, word@, i as int);
                lemma_run_prefix(self@, 0, word@, i + 1);
            }
            match self.lambda.get(state, word[i]) {
                Some(o) => {
                    output = output + o;
                },
                None => {},
            }
            match self.delta.get(state, word[i]) {
                Some(q) => {
                    state = q;
                },
                None => {},
            }
            i += 1;
        }
        assert(word@.take(i as int) =~= word@);
        output
    }

    /// Returns the output of a given word from the transducer.
    pub fn output(&self, word: &Vec<char>) -> (r: usize)
        requires
            self.wf(),
            self@.consistent(),
            self@.fits(),
            self@.reads(word@),
        ensures
            r == self@.output(word@),
    {
        proof {
            lemma_reads_outputs(self@, word@);
        }
        let path = self.state_sequence(word);
        let last = path[path.len() - 1];
        assert(word@.take(word@.len() as int) =~= word@);
        let final_output = match self.psi.get(&last) {
            Some(o) => *o,
            None => 0,
        };
        self.iota + self.lambda_star(word) + final_output
    }

    /// Finds the longest prefix of `word` that the transducer reads.
    pub fn longest_common_prefix(&self, word: &Vec<char>) -> (prefix: Vec<char>)
        requires
            self.wf(),
        ensures
            prefix@.len() <= word@.len(),
            prefix@ == word@.take(prefix@.len() as int),
            self@.reads(prefix@),
            prefix@.len() < word@.len() ==> !self@.reads(word@.take(prefix@.len() as int + 1)),
    {
        let mut state: usize = 0;
        let mut prefix: Vec<char> = Vec::new();
        let mut i: usize = 0;
        proof {
            lemma_run_empty(self@, 0);
            assert(word@.take(0) =~= Seq::<char>::empty());
        }
        while i < word.len()
            invariant
                i <= word.len(),
                self.wf(),
                prefix@ == word@.take(i as int),
                self@.run(0, prefix@) == Some(state),
            decreases word.len() - i,
        {
            proof {
                lemma_run_step(self@, 0, word@, i as int);
            }
            match self.delta.get(state, word[i]) {
                Some(q) => {
                    state = q;
                    prefix.push(word[i]);
                    assert(prefix@ =~= word@.take(i + 1));
                },
                None => {
                    return prefix;
                },
            }
            i += 1;
        }
        prefix
    }

    /// The signature of `q`.
    pub fn signature(&self, q: usize) -> (s: Signature)
        requires
            self.wf(),
            self@.has_outputs_at(q),
        ensures
            s.wf(),
            s@ == self@.signature(q),
    {
        let final_output = match self.psi.get(&q) {
            Some(o) => Some(*o),
            None => None,
        };
        let mut transitions: Vec<(char, (usize, usize))> = Vec::new();
        match self.delta.row(q) {
            Some(row) => {
                let mut i: usize = 0;
                while i < row.len()
                    invariant
                        i <= row.len(),
                        self.wf(),
                        self@.has_outputs_at(q),
                        row_distinct(row@),
                        forall|c: char| row_has(row@, c) <==> self@.delta.contains_key((q, c)),
                        forall|c: char| row_has(row@, c)
                            ==> row_value(row@, c) == self@.delta[(q, c)],
                        row_distinct(transitions@),
                        forall|c: char|
                            row_has(transitions@, c) <==> (self@.alphabet.contains(c) && row_has(
                                row@.take(i as int),
                                c,
                            )),
                        forall|c: char|
                            row_has(transitions@, c) ==> row_value(transitions@, c) == (
                                self@.delta[(q, c)],
                                self@.lambda[(q, c)],
                            ),
                    decreases row.len() - i,
                {
                    let c = row[i].0;
                    let d = row[i].1;
                    let ghost before = transitions@;
                    proof {
                        lemma_row_value(row@, i as int);
                        if row_has(row@.take(i as int), c) {
                            let j = choose|j: int|
                                0 <= j < row@.take(i as int).len() && (#[trigger] row@.take(
                                    i as int,
                                )[j]).0 == c;
                            assert(row@[j].0 != row@[i as int].0);
                        }
                        lemma_take_row_has(row@, i as int);
                        assert forall|x: char| row_has(row@.take(i as int), x)
                            implies row_has(row@, x) by {
                            let j = choose|j: int|
                                0 <= j < row@.take(i as int).len() && (#[trigger] row@.take(
                                    i as int,
                                )[j]).0 == x;
                            assert(row@[j].0 == x);
                        }
                    }
                    assert(self@.delta.contains_key((q, c)));
                    assert(d == self@.delta[(q, c)]);
                    if self.alphabet.contains(c) {
                        match self.lambda.get(q, c) {
                            Some(o) => {
                                proof {
                                    lemma_row_push(transitions@, c, (d, o));
                                }
                                transitions.push((c, (d, o)));
                            },
                            None => {
                                assert(self@.lambda.contains_key((q, c)));
                            },
                        }
                    }
                    proof {
                        assert forall|x: char| row_has(transitions@, x)
                            <==> (self@.alphabet.contains(x)
                            && row_has(row@.take(i + 1), x)) by {
                            if x != c {
                                assert(row_has(transitions@, x) <==> row_has(before, x));
                            }
                        }
                        assert forall|x: char| row_has(transitions@, x)
                            implies row_value(transitions@, x) == (
                            self@.delta[(q, x)],
                            self@.lambda[(q, x)],
                        ) by {
                            if x != c {
                                assert(row_has(before, x));
                            }
                        }
                    }
                    i += 1;
                }
                assert(row@.take(i as int) =~= row@);
            },
            None => {},
        }
        let s = Signature { final_output, transitions };
        proof {
            assert forall|c: char| s@.transitions.contains_key(c)
                <==> self@.signature(q).transitions.contains_key(c) by {
                if self@.delta.contains_key((q, c)) {
                    assert(self.delta@.contains_key((q, c)));
                }
            }
            assert(s@.transitions =~= self@.signature(q).transitions);
        }
        s
    }

    /// Registers `q` under its signature.
    pub fn add_signature(&mut self, q: usize)
        requires
            old(self).wf(),
            old(self)@.has_outputs_at(q),
        ensures
            final(self).wf(),
            final(self)@ == old(self)@.add_signature(q),
    {
        let s = self.signature(q);
        self.states_by_signature.insert(s, q);
    }

    /// Removes what is registered under the signature of `q`.
    pub fn remove_signature(&mut self, q: usize)
        requires
            old(self).wf(),
            old(self)@.has_outputs_at(q),
        ensures
            final(self).wf(),
            final(self)@ == old(self)@.remove_signature(q),
    {
        let s = self.signature(q);
        self.states_by_signature.remove(&s);
    }

    /// Searches for another state that is registered under the signature of `q`.
    pub fn state_eq(&self, q: usize) -> (r: Option<usize>)
        requires
            self.wf(),
            self@.has_outputs_at(q),
        ensures
            r == self@.state_eq(q),
    {
        let state_sig = self.signature(q);
        match self.states_by_signature.get(&state_sig) {
            Some(q_eq) => {
                if q_eq != q {
                    Some(q_eq)
                } else {
                    None
                }
            },
            None => None,
        }
    }

    /// Completely deletes a given state.
    pub fn delete_state(&mut self, state: &usize)
        requires
            old(self).wf(),
            *state != 0,
        ensures
            final(self).wf(),
            final(self)@ == old(self)@.delete_state(*state),
    {
        let q = *state;
        let ghost m = self@;
        let removed = self.delta_inv.remove_row(q);
        let ghost before = *self;
        match removed {
            Some(preds) => {
                let mut i: usize = 0;
                assert(self.delta@ =~= Map::new(
                    |k: (usize, char)| m.delta.contains_key(k)
                        && !preds@.take(0).contains((k.1, k.0)),
                    |k: (usize, char)| m.delta[k],
                ));
                assert(self.lambda@ =~= Map::new(
                    |k: (usize, char)| m.lambda.contains_key(k)
                        && !preds@.take(0).contains((k.1, k.0)),
                    |k: (usize, char)| m.lambda[k],
                ));
                while i < preds.len()
                    invariant
                        i <= preds.len(),
                        self.wf(),
                        self.delta_inv == before.delta_inv,
                        self.states == before.states,
                        self.finality == before.finality,
                        self.psi == before.psi,
                        self.iota == before.iota,
                        self.alphabet == before.alphabet,
                        self.min_except == before.min_except,
                        self.states_by_signature == before.states_by_signature,
                        self.delta@ == Map::new(
                            |k: (usize, char)| m.delta.contains_key(k)
                                && !preds@.take(i as int).contains((k.1, k.0)),
                            |k: (usize, char)| m.delta[k],
                        ),
                        self.lambda@ == Map::new(
                            |k: (usize, char)| m.lambda.contains_key(k)
                                && !preds@.take(i as int).contains((k.1, k.0)),
                            |k: (usize, char)| m.lambda[k],
                        ),
                    decreases preds.len() - i,
                {
                    let ch = preds[i].0;
                    let s = preds[i].1;
                    remove_from_or_delete(&mut self.lambda, &s, &ch);
                    remove_from_or_delete(&mut self.delta, &s, &ch);
                    proof {
                        lemma_take_contains(preds@, i as int);
                        assert(self.delta@ =~= Map::new(
                            |k: (usize, char)| m.delta.contains_key(k)
                                && !preds@.take(i + 1).contains((k.1, k.0)),
                            |k: (usize, char)| m.delta[k],
                        ));
                        assert(self.lambda@ =~= Map::new(
                            |k: (usize, char)| m.lambda.contains_key(k)
                                && !preds@.take(i + 1).contains((k.1, k.0)),
                            |k: (usize, char)| m.lambda[k],
                        ));
                    }
                    i += 1;
                }
                assert(preds@.take(i as int) =~= preds@);
            },
            None => {},
        }
        assert(self.delta@ =~= Map::new(
            |k: (usize, char)| m.delta.contains_key(k) && !m.enters(k, q),
            |k: (usize, char)| m.delta[k],
        ));
        assert(self.lambda@ =~= Map::new(
            |k: (usize, char)| m.lambda.contains_key(k) && !m.enters(k, q),
            |k: (usize, char)| m.lambda[k],
        ));
        let ghost d1 = self.delta@;
        let ghost inv1 = self.delta_inv@;
        let leaving = self.delta.remove_row(q);
        let ghost before = *self;
        match leaving {
            Some(succs) => {
                let mut i: usize = 0;
                assert(self.delta_inv@ =~= Set::new(
                    |e: (usize, char, usize)| inv1.contains(e) && !(e.2 == q
                        && succs@.take(0).contains((e.1, e.0))),
                ));
                while i < succs.len()
                    invariant
                        i <= succs.len(),
                        self.wf(),
                        self.delta == before.delta,
                        self.lambda == before.lambda,
                        self.states == before.states,
                        self.finality == before.finality,
                        self.psi == before.psi,
                        self.iota == before.iota,
                        self.alphabet == before.alphabet,
                        self.min_except == before.min_except,
                        self.states_by_signature == before.states_by_signature,
                        self.delta_inv@ == Set::new(
                            |e: (usize, char, usize)| inv1.contains(e) && !(e.2 == q
                                && succs@.take(i as int).contains((e.1, e.0))),
                        ),
                    decreases succs.len() - i,
                {
                    let ch = succs[i].0;
                    let d = succs[i].1;
                    self.delta_inv.remove(d, ch, q);
                    proof {
                        lemma_take_contains(succs@, i as int);
                        assert(self.delta_inv@ =~= Set::new(
                            |e: (usize, char, usize)| inv1.contains(e) && !(e.2 == q
                                && succs@.take(i + 1).contains((e.1, e.0))),
                        ));
                    }
                    i += 1;
                }
                proof {
                    assert(succs@.take(i as int) =~= succs@);
                    assert forall|c: char, d: usize| #[trigger] succs@.contains((c, d))
                        <==> (d1.contains_key((q, c)) && d1[(q, c)] == d) by {
                        if succs@.contains((c, d)) {
                            let j = choose|j: int| 0 <= j < succs@.len() && succs@[j] == (c, d);
                            lemma_row_value(succs@, j);
                        }
                        if d1.contains_key((q, c)) && d1[(q, c)] == d {
                            assert(row_has(succs@, c));
                            let j = choose|j: int| 0 <= j < succs@.len()
                                && (#[trigger] succs@[j]).0 == c;
                            lemma_row_value(succs@, j);
                            assert(succs@[j] == (c, d));
                        }
                    }
                    assert(self.delta_inv@ =~= Set::new(
                        |e: (usize, char, usize)| inv1.contains(e) && !(e.2 == q
                            && d1.contains_key((q, e.1)) && d1[(q, e.1)] == e.0),
                    )) by {
                        assert forall|e: (usize, char, usize)| succs@.contains((e.1, e.0))
                            <==> (d1.contains_key((q, e.1)) && d1[(q, e.1)] == e.0) by {}
                    }
                }
            },
            None => {
                assert(self.delta_inv@ =~= Set::new(
                    |e: (usize, char, usize)| inv1.contains(e) && !(e.2 == q
                        && d1.contains_key((q, e.1)) && d1[(q, e.1)] == e.0),
                ));
            },
        }
        assert(self.delta_inv@ == Set::new(
            |e: (usize, char, usize)| inv1.contains(e) && !(e.2 == q
                && d1.contains_key((q, e.1)) && d1[(q, e.1)] == e.0),
        ));
        self.lambda.remove_row(q);
        remove_state(&mut self.states, q);
        remove_state(&mut self.finality, q);
        self.psi.remove(&q);
        proof {
            let t = m.delete_state(q);
            assert(self@.delta =~= t.delta);
            assert(self@.lambda =~= t.lambda);
            assert(self@.delta_inv =~= t.delta_inv);
            assert(self@.psi =~= t.psi);
            assert(self@.states =~= t.states);
            assert(self@.finality =~= t.finality);
        }
    }

    /// Constructs the trivial transducer of a single entry.
    pub fn from_entry(word: &str, output: usize) -> (t: Transducer)
        ensures
            t.wf(),
            t@ == Model::single(word@, output),
            t@.sound(),
            t@.tidy(),
            t@.frontier(),
            t@.min_except == word@,
            t@.output(word@) == output,
            forall|u: Seq<char>| #[trigger] t@.accepts(u) <==> u == word@,
    {
        Transducer::from_entry_with_capacity(word, output, 0)
    }

    /// Like `from_entry`, with room for `capacity` states in the tables.
    pub fn from_entry_with_capacity(word: &str, output: usize, capacity: usize) -> (t: Transducer)
        ensures
            t.wf(),
            t@ == Model::single(word@, output),
            t@.sound(),
            t@.tidy(),
            t@.frontier(),
            t@.min_except == word@,
            t@.output(word@) == output,
            forall|u: Seq<char>| #[trigger] t@.accepts(u) <==> u == word@,
    {
        let word: Vec<char> = chars_of(word);
        let n = word.len();
        proof {
            lemma_single(word@, output);
            lemma_single_tidy(word@, output);
            lemma_single_rooted(word@, output);
            lemma_single_frontier(word@, output);
        }
        let mut alphabet = Alphabet::new();
        let mut states: BTreeSet<usize> = BTreeSet::new();
        let mut delta = Table::with_capacity(capacity);
        let mut delta_inv = Inverse::with_capacity(capacity);
        let mut lambda = Table::with_capacity(capacity);
        insert_state(&mut states, 0);
        let mut i: usize = 0;
        assert(word@.take(0).to_set() =~= Set::<char>::empty());
        assert(states@ =~= Set::new(|q: usize| q <= 0));
        while i < n
            invariant
                i <= n,
                n == word@.len(),
                delta.wf(),
                delta_inv.wf(),
                lambda.wf(),
                alphabet@ == word@.take(i as int).to_set(),
                states@ == Set::new(|q: usize| q <= i),
                delta@ == Map::new(
                    |k: (usize, char)| k.0 < i && k.1 == word@[k.0 as int],
                    |k: (usize, char)| (k.0 + 1) as usize,
                ),
                delta_inv@ == Set::new(
                    |e: (usize, char, usize)| e.2 < i && e.1 == word@[e.2 as int] && e.0 == e.2 + 1,
                ),
                lambda@ == Map::new(
                    |k: (usize, char)| k.0 < i && k.1 == word@[k.0 as int],
                    |k: (usize, char)| 0usize,
                ),
            decreases n - i,
        {
            alphabet.insert(word[i]);
            insert_state(&mut states, i + 1);
            add_to_or_insert(&mut delta, i, word[i], i + 1);
            delta_inv.insert(i + 1, word[i], i);
            add_to_or_insert(&mut lambda, i, word[i], 0);
            proof {
                lemma_take_contains(word@, i as int);
                assert(alphabet@ =~= word@.take(i + 1).to_set());
                assert(states@ =~= Set::new(|q: usize| q <= i + 1));
                assert(delta@ =~= Map::new(
                    |k: (usize, char)| k.0 < i + 1 && k.1 == word@[k.0 as int],
                    |k: (usize, char)| (k.0 + 1) as usize,
                ));
                assert(delta_inv@ =~= Set::new(
                    |e: (usize, char, usize)| e.2 < i + 1 && e.1 == word@[e.2 as int]
                        && e.0 == e.2 + 1,
                ));
                assert(lambda@ =~= Map::new(
                    |k: (usize, char)| k.0 < i + 1 && k.1 == word@[k.0 as int],
                    |k: (usize, char)| 0usize,
                ));
            }
            i += 1;
        }
        let mut finality: BTreeSet<usize> = BTreeSet::new();
        insert_state(&mut finality, n);
        let mut psi: HashMap<usize, usize> = HashMap::new();
        psi.insert(n, 0);
        let t = Transducer {
            alphabet,
            states,
            finality,
            init_state: 0,
            delta,
            delta_inv,
            lambda,
            iota: output,
            psi,
            min_except: word,
            states_by_signature: SignatureIndex::with_capacity(capacity),
        };
        proof {
            let m = Model::single(word@, output);
            assert(word@.take(n as int) =~= word@);
            assert(t@.alphabet =~= m.alphabet);
            assert(t@.states =~= m.states);
            assert(t@.finality =~= m.finality);
            assert(t@.delta =~= m.delta);
            assert(t@.delta_inv =~= m.delta_inv);
            assert(t@.lambda =~= m.lambda);
            assert(t@.psi =~= m.psi);
            assert(t@.index =~= m.index);
        }
        t
    }

    /// Reduces the word along which the transducer may fail to be minimal by one
    /// character, from the right.
    ///
    /// The transducer must be sound, with a path to reduce. One that is not
    /// sound can still be reduced where the step finds what it looks up.
    pub fn reduce_except_by_one(&mut self)
        requires
            old(self).wf(),
            old(self)@.reducible() || (old(self)@.sound() && old(self)@.min_except.len() > 0),
        ensures
            final(self).wf(),
            final(self)@ == old(self)@.reduce_step(),
            old(self)@.sound() && old(self)@.min_except.len() > 0
                ==> final(self)@.sound() && equivalent(
                old(self)@,
                final(self)@,
            ) && (old(self)@.tidy() ==> final(self)@.tidy()),
    {
        proof {
            if old(self)@.sound() && old(self)@.min_except.len() > 0 {
                lemma_reduce_step(old(self)@);
                lemma_reduce_step_rooted(old(self)@);
                if old(self)@.tidy() {
                    lemma_reduce_step_tidy(old(self)@);
                }
            }
        }
        let t_w = self.state_sequence(&self.min_except);
        let n = self.min_except.len();
        let an = self.min_except[n - 1];
        let tn = t_w[n];
        let tp = t_w[n - 1];
        proof {
            assert(self.min_except@.take(n as int) =~= self.min_except@);
            assert(self.min_except@.take(n - 1) =~= self.min_except@.drop_last());
        }
        match self.state_eq(tn) {
            Some(q) => {
                let prev_output = match self.lambda.get(tp, an) {
                    Some(o) => o,
                    None => 0,
                };
                self.delete_state(&tn);
                self.add_delta_transition(tp, an, q);
                add_to_or_insert(&mut self.lambda, tp, an, prev_output);
            },
            None => {
                self.add_signature(tn);
            },
        }
        self.min_except.pop();
    }

    /// Reduces the word along which the transducer may fail to be minimal by `k`
    /// characters, from the right.
    ///
    /// The transducer must be sound, with a path of `k` labels or more. One that
    /// is not sound can still be reduced where each step finds what it looks up.
    pub fn reduce_except_by_k(&mut self, k: usize)
        requires
            old(self).wf(),
            old(self)@.reducible_by(k as nat) || (old(self)@.sound()
                && k <= old(self)@.min_except.len()),
        ensures
            final(self).wf(),
            final(self)@ == old(self)@.reduce_by(k as nat),
            old(self)@.sound() && k <= old(self)@.min_except.len()
                ==> final(self)@.sound() && equivalent(
                old(self)@,
                final(self)@,
            ) && (old(self)@.tidy() ==> final(self)@.tidy()),
    {
        proof {
            if old(self)@.sound() && k <= old(self)@.min_except.len() {
                lemma_reduce_by(old(self)@, k as nat);
                lemma_reduce_by_rooted(old(self)@, k as nat);
                if old(self)@.tidy() {
                    lemma_reduce_by_tidy(old(self)@, k as nat);
                }
            }
        }
        let mut i: usize = 0;
        while i < k
            invariant
                i <= k,
                self.wf(),
                old(self)@.reducible_by(k as nat),
                self@ == old(self)@.reduce_by(i as nat),
            decreases k - i,
        {
            proof {
                lemma_reducible_by_fewer(old(self)@, k as nat, (i + 1) as nat);
            }
            self.reduce_except_by_one();
            i += 1;
        }
    }

    /// Makes the transducer minimal: takes all of `min_except` away and registers
    /// the initial state.
    ///
    /// The transducer must be sound. One that is not sound can still be reduced
    /// where each step finds what it looks up.
    pub fn reduce_to_epsilon(&mut self)
        requires
            old(self).wf(),
            old(self)@.reducible_to_epsilon() || old(self)@.sound(),
        ensures
            final(self).wf(),
            final(self)@ == old(self)@.reduce_to_epsilon(),
            old(self)@.sound() ==> final(self)@.minimal()
                && equivalent(old(self)@, final(self)@) && (
            old(self)@.tidy() ==> final(self)@.tidy()),
    {
        proof {
            if old(self)@.sound() {
                lemma_reduce_to_epsilon(old(self)@);
                if old(self)@.tidy() {
                    lemma_reduce_to_epsilon_tidy(old(self)@);
                }
            }
        }
        let n = self.min_except.len();
        self.reduce_except_by_k(n);
        self.add_signature(self.init_state);
    }

    /// Adds `k` new states to the transducer, numbered from the greatest state on.
    pub fn add_new_states(&mut self, k: usize) -> (new_states: Vec<usize>)
        requires
            old(self)@.max_state() + k <= usize::MAX,
        ensures
            new_states@ == Seq::new(k as nat, |j: int| (old(self)@.max_state() + 1 + j) as usize),
            final(self)@ == (Model {
                states: old(self)@.states.union(
                    Set::new(
                        |q: usize|
                            old(self)@.max_state() < q <= old(self)@.max_state() + k,
                    ),
                ),
                ..old(self)@
            }),
            final(self).wf() == old(self).wf(),
    {
        let max_state: usize = match greatest_state(&self.states) {
            Some(m) => *m,
            None => 0,
        };
        proof {
            if self@.states.contains(max_state) {
                lemma_greatest(self@.states, max_state);
            }
        }
        let mut new_states: Vec<usize> = Vec::new();
        let mut i: usize = 0;
        let ghost before = *self;
        assert(self.states@ =~= before.states@.union(Set::new(|q: usize| max_state < q
            <= max_state + 0)));
        while i < k
            invariant
                i <= k,
                max_state + k <= usize::MAX,
                max_state == before@.max_state(),
                new_states@ == Seq::new(i as nat, |j: int| (max_state + 1 + j) as usize),
                self.states@ == before.states@.union(Set::new(|q: usize| max_state < q
                    <= max_state + i)),
                self.alphabet == before.alphabet,
                self.finality == before.finality,
                self.init_state == before.init_state,
                self.delta == before.delta,
                self.delta_inv == before.delta_inv,
                self.lambda == before.lambda,
                self.iota == before.iota,
                self.psi == before.psi,
                self.min_except == before.min_except,
                self.states_by_signature == before.states_by_signature,
            decreases k - i,
        {
            i += 1;
            insert_state(&mut self.states, max_state + i);
            new_states.push(max_state + i);
            proof {
                assert(new_states@ =~= Seq::new(i as nat, |j: int| (max_state + 1 + j) as usize));
                assert(self.states@ =~= before.states@.union(Set::new(|q: usize| max_state < q
                    <= max_state + i)));
            }
        }
        new_states
    }

    /// Adds all the characters of a word to the transducer's alphabet.
    pub fn update_alphabet_with_word(&mut self, word: &[char])
        ensures
            final(self)@ == (Model {
                alphabet: old(self)@.alphabet.union(word@.to_set()),
                ..old(self)@
            }),
            final(self).wf() == old(self).wf(),
    {
        let mut i: usize = 0;
        let ghost before = *self;
        assert(self.alphabet@ =~= before.alphabet@.union(word@.take(0).to_set()));
        while i < word.len()
            invariant
                i <= word.len(),
                self.alphabet@ == before.alphabet@.union(word@.take(i as int).to_set()),
                self.states == before.states,
                self.finality == before.finality,
                self.init_state == before.init_state,
                self.delta == before.delta,
                self.delta_inv == before.delta_inv,
                self.lambda == before.lambda,
                self.iota == before.iota,
                self.psi == before.psi,
                self.min_except == before.min_except,
                self.states_by_signature == before.states_by_signature,
            decreases word.len() - i,
        {
            self.alphabet.insert(word[i]);
            proof {
                lemma_take_contains(word@, i as int);
                assert(self.alphabet@ =~= before.alphabet@.union(word@.take(i + 1).to_set()));
            }
            i += 1;
        }
        assert(word@.take(i as int) =~= word@);
    }
}

} // verus!
