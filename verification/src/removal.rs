//! What deleting a word does to the model.

use crate::insertion::has_row;
use crate::model::Model;
use vstd::prelude::*;

verus! {

impl Model {
    /// One of the outputs at `q`, a transition output or the final output, is `v`.
    pub open spec fn has_output(self, q: usize, v: nat) -> bool {
        ||| exists|c: char| self.lambda.contains_key((q, c)) && self.lambda[(q, c)] == v
        ||| self.psi.contains_key(q) && self.psi[q] == v
    }

    /// `v` is the least of the outputs at `q`: of the outputs of the transitions
    /// that leave `q` and of its final output. Where `q` has no output, `v` is 0.
    pub open spec fn is_least_output(self, q: usize, v: nat) -> bool {
        &&& forall|c: char| #[trigger] self.lambda.contains_key((q, c)) ==> v <= self.lambda[(q, c)]
        &&& self.psi.contains_key(q) ==> v <= self.psi[q]
        &&& self.has_output(q, v) || (v == 0 && !has_row(self.lambda, q) && !self.psi.contains_key(
            q,
        ))
    }

    /// The least of the outputs at `q`.
    pub open spec fn least_output(self, q: usize) -> nat {
        choose|v: nat| self.is_least_output(q, v)
    }

    /// The model with the least of the outputs at `q` taken from each of them.
    pub open spec fn extract_min_from_state(self, q: usize) -> Model {
        let v = self.least_output(q);
        Model {
            lambda: Map::new(
                |k: (usize, char)| self.lambda.contains_key(k),
                |k: (usize, char)|
                    if k.0 == q {
                        (self.lambda[k] - v) as usize
                    } else {
                        self.lambda[k]
                    },
            ),
            psi: if self.psi.contains_key(q) {
                self.psi.insert(q, (self.psi[q] - v) as usize)
            } else {
                self.psi
            },
            ..self
        }
    }

    /// The transition from `source` on `c` is the one recorded transition that
    /// enters `target`.
    pub open spec fn sole_entry(self, target: usize, c: char, source: usize) -> bool {
        forall|x: char, s: usize| #[trigger]
            self.delta_inv.contains((target, x, s)) <==> (x == c && s == source)
    }

    /// `w` can be read, and each state on the way but the first is another state
    /// than the initial one and is entered by the transition of the way alone.
    pub open spec fn private_word(self, w: Seq<char>) -> bool {
        &&& self.reads(w)
        &&& forall|i: int|
            1 <= i <= w.len() ==> (#[trigger] self.state_after(w.take(i))) != 0 && self.sole_entry(
                self.state_after(w.take(i)),
                w[i - 1],
                self.state_after(w.take(i - 1)),
            )
    }

    /// `w` is a private word that ends in `q`.
    pub open spec fn leads_privately(self, w: Seq<char>, q: usize) -> bool {
        self.private_word(w) && self.state_after(w) == q
    }

    /// Some private word ends in `q`.
    pub open spec fn reached_privately(self, q: usize) -> bool {
        exists|w: Seq<char>| self.leads_privately(w, q)
    }

    /// A private word that ends in `q`.
    pub open spec fn private_word_to(self, q: usize) -> Seq<char> {
        choose|w: Seq<char>| self.leads_privately(w, q)
    }

    /// Going back along `w` from the state after its first `i` labels: the first
    /// state met that is final or has more than one outgoing transition, with
    /// the label on which the way leaves it. None where the way back reaches the
    /// initial state without meeting one.
    pub open spec fn prev_divergent(self, w: Seq<char>, i: nat) -> Option<(char, usize)>
        decreases i,
    {
        if i == 0 {
            None
        } else {
            let s = self.state_after(w.take(i - 1));
            if self.is_divergent(s) {
                Some((w[i - 1], s))
            } else if s == 0 {
                None
            } else {
                self.prev_divergent(w, (i - 1) as nat)
            }
        }
    }

    /// What `find_prev_divergent_state` finds for `q`.
    pub open spec fn prev_divergent_state(self, q: usize) -> Option<(char, usize)> {
        self.prev_divergent(self.private_word_to(q), self.private_word_to(q).len())
    }

    /// The model with `carry` moved up the path from the state after the first
    /// `i` labels of `min_except`: it is added to the transition on which the
    /// path leaves the last state before that is final or has more than one
    /// outgoing transition; there the least output is taken out and moved up in
    /// turn; what arrives at the initial state is added to the initial output.
    pub open spec fn carry_up(self, i: nat, carry: nat) -> Model
        decreases i,
    {
        if i == 0 {
            Model { iota: (self.iota + carry) as usize, ..self }
        } else {
            let s = self.path_state(i - 1);
            let c = self.min_except[i - 1];
            if self.is_divergent(s) {
                let raised = Model {
                    lambda: if self.lambda.contains_key((s, c)) {
                        self.lambda.insert((s, c), (self.lambda[(s, c)] + carry) as usize)
                    } else {
                        self.lambda
                    },
                    ..self
                };
                raised.extract_min_from_state(s).carry_up((i - 1) as nat, raised.least_output(s))
            } else if s == 0 {
                Model { iota: (self.iota + carry) as usize, ..self }
            } else {
                self.carry_up((i - 1) as nat, carry)
            }
        }
    }

    /// Each sum that `carry_up` computes fits the machine word.
    pub open spec fn can_carry_up(self, i: nat, carry: nat) -> bool
        decreases i,
    {
        if i == 0 {
            self.iota + carry <= usize::MAX
        } else {
            let s = self.path_state(i - 1);
            let c = self.min_except[i - 1];
            if self.is_divergent(s) {
                let raised = Model {
                    lambda: if self.lambda.contains_key((s, c)) {
                        self.lambda.insert((s, c), (self.lambda[(s, c)] + carry) as usize)
                    } else {
                        self.lambda
                    },
                    ..self
                };
                &&& self.lambda.contains_key((s, c)) ==> self.lambda[(s, c)] + carry <= usize::MAX
                &&& raised.extract_min_from_state(s).can_carry_up(
                    (i - 1) as nat,
                    raised.least_output(s),
                )
            } else if s == 0 {
                self.iota + carry <= usize::MAX
            } else {
                self.can_carry_up((i - 1) as nat, carry)
            }
        }
    }

    /// The outputs along `min_except` can be made canonical: the path can be read
    /// and the sums fit the machine word.
    pub open spec fn can_canonicalise(self) -> bool {
        let tn = self.state_after(self.min_except);
        &&& self.reads(self.min_except)
        &&& self.extract_min_from_state(tn).can_carry_up(
            self.min_except.len(),
            self.least_output(tn),
        )
    }

    /// The model with the outputs along `min_except` made canonical: at the last
    /// state of the path the least output is taken out and moved up the path.
    pub open spec fn canonicalise_min_except(self) -> Model {
        let tn = self.state_after(self.min_except);
        self.extract_min_from_state(tn).carry_up(self.min_except.len(), self.least_output(tn))
    }

    /// The model without the states of `path` from position `i` back to the first
    /// that is `stop`, and with as many labels taken from `min_except`.
    pub open spec fn delete_back(self, path: Seq<usize>, i: nat, stop: usize) -> Model
        decreases i,
    {
        if path[i as int] == stop {
            self
        } else {
            let shorter = Model {
                min_except: if self.min_except.len() > 0 {
                    self.min_except.drop_last()
                } else {
                    self.min_except
                },
                ..self.delete_state(path[i as int])
            };
            if i == 0 {
                shorter
            } else {
                shorter.delete_back(path, (i - 1) as nat, stop)
            }
        }
    }

    /// None of the states that `delete_back` deletes is the initial state.
    pub open spec fn can_delete_back(path: Seq<usize>, i: nat, stop: usize) -> bool
        decreases i,
    {
        path[i as int] != stop ==> path[i as int] != 0 && i > 0 && Model::can_delete_back(
            path,
            (i - 1) as nat,
            stop,
        )
    }

    /// The model after the path has been laid along `word` and, where no word
    /// goes on from `word`, the states that only `word` needs have been deleted.
    pub open spec fn cut_branch(self, word: Seq<char>) -> Model {
        let opened = self.increase_except_from_epsilon_to_word(word);
        let tn = opened.state_after(word);
        if has_row(opened.delta, tn) {
            opened
        } else {
            opened.delete_back(
                opened.state_sequence(word),
                word.len(),
                opened.prev_divergent_state(tn).unwrap().1,
            )
        }
    }

    /// The model with `q` no longer final.
    pub open spec fn unmark(self, q: usize) -> Model {
        Model { finality: self.finality.remove(q), psi: self.psi.remove(q), ..self }
    }

    /// The state after the first `p` labels of `word`, before its end, is final
    /// or has more than one outgoing transition.
    pub open spec fn branches_before(self, word: Seq<char>, p: int) -> bool {
        0 <= p < word.len() && self.is_divergent(self.state_after(word.take(p)))
    }

    /// `word` can be deleted: it is a word of the dictionary, not the empty
    /// one, and the dictionary does not become empty without it, because
    /// another word goes on from it or leaves it before its end.
    pub open spec fn removable(self, word: Seq<char>) -> bool {
        &&& word.len() > 0
        &&& self.accepts(word)
        &&& has_row(self.delta, self.state_after(word))
            || exists|p: int| self.branches_before(word, p)
    }

    /// Every step of deleting `word` from a minimal transducer can be made.
    pub open spec fn can_remove(self, word: Seq<char>) -> bool {
        let opened = self.increase_except_from_epsilon_to_word(word);
        let tn = opened.state_after(word);
        let plain = self.cut_branch(word).unmark(tn);
        &&& word.len() > 0
        &&& self.can_increase_along(word, word.len())
        &&& opened.reads(word)
        &&& !has_row(opened.delta, tn) ==> {
            &&& opened.reached_privately(tn)
            &&& opened.prev_divergent_state(tn) is Some
            &&& Model::can_delete_back(
                opened.state_sequence(word),
                word.len(),
                opened.prev_divergent_state(tn).unwrap().1,
            )
        }
        &&& plain.can_canonicalise()
        &&& plain.canonicalise_min_except().reducible_to_epsilon()
    }

    /// The model after `word` has been deleted from a minimal transducer: the
    /// path is laid along the word, the states that only this word needs are
    /// deleted, the state that the word ends in is no longer final, the outputs
    /// along the path are made canonical, and the path is reduced again.
    pub open spec fn remove_entry_with_word(self, word: Seq<char>) -> Model {
        let opened = self.increase_except_from_epsilon_to_word(word);
        let tn = opened.state_after(word);
        self.cut_branch(word).unmark(tn).canonicalise_min_except().reduce_to_epsilon()
    }
}

/// The least of the outputs at a state is the one output that none is below.
pub proof fn lemma_least_output(m: Model, q: usize, v: nat)
    requires
        m.is_least_output(q, v),
    ensures
        m.least_output(q) == v,
{
    let u = m.least_output(q);
    assert(m.is_least_output(q, u));
    if m.has_output(q, v) {
        assert(u <= v);
    }
    if m.has_output(q, u) {
        assert(v <= u);
    }
    if !m.has_output(q, v) {
        assert(!has_row(m.lambda, q) && !m.psi.contains_key(q));
        if m.has_output(q, u) {
            if exists|c: char| m.lambda.contains_key((q, c)) && m.lambda[(q, c)] == u {
                let c = choose|c: char| m.lambda.contains_key((q, c)) && m.lambda[(q, c)] == u;
                assert(m.lambda.contains_key((q, c)));
                assert(has_row(m.lambda, q));
            }
        }
    }
    if !m.has_output(q, u) {
        assert(!has_row(m.lambda, q) && !m.psi.contains_key(q));
        if m.has_output(q, v) {
            if exists|c: char| m.lambda.contains_key((q, c)) && m.lambda[(q, c)] == v {
                let c = choose|c: char| m.lambda.contains_key((q, c)) && m.lambda[(q, c)] == v;
                assert(m.lambda.contains_key((q, c)));
                assert(has_row(m.lambda, q));
            }
        }
    }
}

} // verus!
