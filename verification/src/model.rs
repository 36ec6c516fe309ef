//! The mathematical model of a transducer and what it computes.

use crate::utils::labels_at;
use vstd::prelude::*;

verus! {

/// The behavioural fingerprint of a state: its final output, if it is final, and
/// for each label of the alphabet that it reads, the target and the output.
pub struct SignatureView {
    pub final_output: Option<usize>,
    pub transitions: Map<char, (usize, usize)>,
}

/// A transducer as plain mathematics.
///
/// `delta` and `lambda` map (state, label) to the target and to the output of a
/// transition; `delta_inv` holds a triple (target, label, source) for each
/// transition that it records; `psi` gives the final outputs; `index` maps
/// signatures to the states registered under them.
pub struct Model {
    pub alphabet: Set<char>,
    pub states: Set<usize>,
    pub finality: Set<usize>,
    pub delta: Map<(usize, char), usize>,
    pub delta_inv: Set<(usize, char, usize)>,
    pub lambda: Map<(usize, char), usize>,
    pub iota: usize,
    pub psi: Map<usize, usize>,
    pub min_except: Seq<char>,
    pub index: Map<SignatureView, usize>,
}

/// `m` is in the set and nothing in the set is greater.
pub open spec fn is_greatest(set: Set<usize>, m: usize) -> bool {
    set.contains(m) && forall|x: usize| set.contains(x) ==> x <= m
}

/// The greatest number in the set, or 0 where there is none.
pub open spec fn greatest(set: Set<usize>) -> usize {
    if exists|m: usize| is_greatest(set, m) {
        choose|m: usize| is_greatest(set, m)
    } else {
        0
    }
}

/// The greatest number in a set is the one that is in it and that none exceeds.
pub proof fn lemma_greatest(set: Set<usize>, m: usize)
    requires
        is_greatest(set, m),
    ensures
        greatest(set) == m,
{
    let y = choose|x: usize| is_greatest(set, x);
    assert(y <= m && m <= y);
}

impl Model {
    /// The state reached from `q` by reading `w`, if every transition on the way exists.
    #[verifier::opaque]
    pub open spec fn run(self, q: usize, w: Seq<char>) -> Option<usize>
        decreases w.len(),
    {
        if w.len() == 0 {
            Some(q)
        } else {
            match self.run(q, w.drop_last()) {
                Some(p) => if self.delta.contains_key((p, w.last())) {
                    Some(self.delta[(p, w.last())])
                } else {
                    None
                },
                None => None,
            }
        }
    }

    /// The output of the transition that leaves `p` on `c`; 0 where there is none.
    pub open spec fn edge_output(self, p: usize, c: char) -> nat {
        if self.lambda.contains_key((p, c)) {
            self.lambda[(p, c)] as nat
        } else {
            0
        }
    }

    /// The sum of the transition outputs on the way from `q` along `w`.
    #[verifier::opaque]
    pub open spec fn weight(self, q: usize, w: Seq<char>) -> nat
        decreases w.len(),
    {
        if w.len() == 0 {
            0
        } else {
            self.weight(q, w.drop_last()) + match self.run(q, w.drop_last()) {
                Some(p) => self.edge_output(p, w.last()),
                None => 0,
            }
        }
    }

    /// `w` can be read from the initial state.
    pub open spec fn reads(self, w: Seq<char>) -> bool {
        self.run(0, w) is Some
    }

    /// The state reached from the initial state by reading `w`.
    pub open spec fn state_after(self, w: Seq<char>) -> usize {
        self.run(0, w).unwrap()
    }

    /// The states visited while reading `w` from the initial state, the initial
    /// state first.
    pub open spec fn state_sequence(self, w: Seq<char>) -> Seq<usize> {
        Seq::new(w.len() + 1, |i: int| self.state_after(w.take(i)))
    }

    /// The last state of the path along `min_except`.
    pub open spec fn last_state(self) -> usize {
        self.state_after(self.min_except)
    }

    /// The final output of `q`; 0 where it has none.
    pub open spec fn final_output(self, q: usize) -> nat {
        if self.psi.contains_key(q) {
            self.psi[q] as nat
        } else {
            0
        }
    }

    /// The sum of the transition outputs on the way from the initial state along `w`.
    pub open spec fn lambda_star(self, w: Seq<char>) -> nat {
        self.weight(0, w)
    }

    /// What the transducer emits for `w`: the initial output, the transition
    /// outputs along `w`, and the final output of the state reached.
    pub open spec fn output(self, w: Seq<char>) -> nat {
        self.iota as nat + self.lambda_star(w) + self.final_output(self.state_after(w))
    }

    /// `w` is a word of the dictionary: reading it ends in a final state.
    pub open spec fn accepts(self, w: Seq<char>) -> bool {
        self.reads(w) && self.finality.contains(self.state_after(w))
    }

    /// Every transition that is read along `w` has an output.
    pub open spec fn has_outputs_along(self, w: Seq<char>) -> bool {
        forall|i: int|
            0 <= i < w.len() ==> self.lambda.contains_key(
                (#[trigger] self.state_after(w.take(i)), w[i]),
            )
    }

    /// Every transition that leaves `q` on a label of the alphabet has an output.
    pub open spec fn has_outputs_at(self, q: usize) -> bool {
        forall|c: char|
            self.alphabet.contains(c) && #[trigger] self.delta.contains_key((q, c))
                ==> self.lambda.contains_key((q, c))
    }

    /// The signature of `q`.
    pub open spec fn signature(self, q: usize) -> SignatureView {
        SignatureView {
            final_output: if self.psi.contains_key(q) {
                Some(self.psi[q])
            } else {
                None
            },
            transitions: Map::new(
                |c: char| self.alphabet.contains(c) && self.delta.contains_key((q, c)),
                |c: char| (self.delta[(q, c)], self.lambda[(q, c)]),
            ),
        }
    }

    /// More than one recorded transition enters `q`.
    pub open spec fn is_convergent(self, q: usize) -> bool {
        exists|c1: char, s1: usize, c2: char, s2: usize|
            (c1, s1) != (c2, s2) && self.delta_inv.contains((q, c1, s1))
                && self.delta_inv.contains((q, c2, s2))
    }

    /// `q` is final or has more than one outgoing transition.
    pub open spec fn is_divergent(self, q: usize) -> bool {
        ||| self.finality.contains(q)
        ||| exists|c1: char, c2: char|
            c1 != c2 && self.delta.contains_key((q, c1)) && self.delta.contains_key((q, c2))
    }

    /// The number of transitions that leave `q`.
    pub open spec fn out_degree(self, q: usize) -> nat {
        labels_at(self.delta, q).len()
    }

    /// The number of transitions that leave the states below `q`.
    pub open spec fn degrees_below(self, q: nat) -> nat
        decreases q,
    {
        if q == 0 {
            0
        } else {
            self.degrees_below((q - 1) as nat) + self.out_degree((q - 1) as usize)
        }
    }

    /// The number of transitions: of those that leave the states up to the
    /// greatest one.
    pub open spec fn transition_count(self) -> nat {
        self.degrees_below(self.max_state() as nat + 1)
    }

    /// The greatest state, or 0 where there is none.
    pub open spec fn max_state(self) -> usize {
        greatest(self.states)
    }

    /// The inverse relation without the record of the transition that leaves
    /// `q1` on `a`, if there is such a transition.
    pub open spec fn unrecorded(self, q1: usize, a: char) -> Set<(usize, char, usize)> {
        if self.delta.contains_key((q1, a)) {
            self.delta_inv.remove((self.delta[(q1, a)], a, q1))
        } else {
            self.delta_inv
        }
    }

    /// The model with the transition from `q1` on `a` set to enter `q2`, in
    /// place of the one that left `q1` on `a` if there was one; the inverse
    /// relation loses the record of that one and gains the record of the new
    /// one. The outputs are left alone.
    pub open spec fn add_delta_transition(self, q1: usize, a: char, q2: usize) -> Model {
        Model {
            delta: self.delta.insert((q1, a), q2),
            delta_inv: self.unrecorded(q1, a).insert((q2, a, q1)),
            ..self
        }
    }

    /// The inverse relation holds exactly the transitions.
    pub open spec fn inverts(self) -> bool {
        forall|e: (usize, char, usize)| #[trigger]
            self.delta_inv.contains(e) <==> (self.delta.contains_key((e.2, e.1)) && self.delta[(
                e.2,
                e.1,
            )] == e.0)
    }

    /// The transition from `k.0` on `k.1` is recorded as entering `q`.
    pub open spec fn enters(self, k: (usize, char), q: usize) -> bool {
        self.delta_inv.contains((q, k.1, k.0))
    }

    /// The model without the state `q`: without the transitions recorded as
    /// entering it, without those that leave it, and without its outputs.
    pub open spec fn delete_state(self, q: usize) -> Model {
        Model {
            states: self.states.remove(q),
            finality: self.finality.remove(q),
            psi: self.psi.remove(q),
            delta: Map::new(
                |k: (usize, char)| self.delta.contains_key(k) && k.0 != q && !self.enters(k, q),
                |k: (usize, char)| self.delta[k],
            ),
            lambda: Map::new(
                |k: (usize, char)| self.lambda.contains_key(k) && k.0 != q && !self.enters(k, q),
                |k: (usize, char)| self.lambda[k],
            ),
            delta_inv: Set::new(
                |e: (usize, char, usize)|
                    self.delta_inv.contains(e) && e.0 != q && !(e.2 == q && self.delta.contains_key(
                        (q, e.1),
                    ) && !self.enters((q, e.1), q) && self.delta[(q, e.1)] == e.0),
            ),
            ..self
        }
    }

    /// The model with `q` registered under its signature.
    pub open spec fn add_signature(self, q: usize) -> Model {
        Model { index: self.index.insert(self.signature(q), q), ..self }
    }

    /// The model with nothing registered under the signature of `q`.
    pub open spec fn remove_signature(self, q: usize) -> Model {
        Model { index: self.index.remove(self.signature(q)), ..self }
    }

    /// The state registered under the signature of `q`, if it is another state.
    pub open spec fn state_eq(self, q: usize) -> Option<usize> {
        if self.index.contains_key(self.signature(q)) && self.index[self.signature(q)] != q {
            Some(self.index[self.signature(q)])
        } else {
            None
        }
    }

    /// The last label of `min_except` can be taken away: the path can be read and
    /// what the step looks up is there.
    pub open spec fn reducible(self) -> bool {
        let t = self.state_after(self.min_except);
        let p = self.state_after(self.min_except.drop_last());
        &&& self.min_except.len() > 0
        &&& self.reads(self.min_except)
        &&& self.has_outputs_at(t)
        &&& self.state_eq(t) is Some ==> t != 0 && self.lambda.contains_key(
            (p, self.min_except.last()),
        )
    }

    /// The model after `min_except` has lost its last label: the last state of
    /// the path is merged into the state registered under its signature, if
    /// that is another state, and registered itself otherwise.
    pub open spec fn reduce_step(self) -> Model {
        let t = self.state_after(self.min_except);
        let p = self.state_after(self.min_except.drop_last());
        let a = self.min_except.last();
        match self.state_eq(t) {
            Some(q) => {
                let merged = self.delete_state(t).add_delta_transition(p, a, q);
                Model {
                    lambda: merged.lambda.insert((p, a), self.lambda[(p, a)]),
                    min_except: self.min_except.drop_last(),
                    ..merged
                }
            },
            None => Model { min_except: self.min_except.drop_last(), ..self.add_signature(t) },
        }
    }

    /// The model after `k` labels have been taken from the end of `min_except`.
    pub open spec fn reduce_by(self, k: nat) -> Model
        decreases k,
    {
        if k == 0 {
            self
        } else {
            self.reduce_by((k - 1) as nat).reduce_step()
        }
    }

    /// Each of the first `k` steps of taking labels from `min_except` can be made.
    pub open spec fn reducible_by(self, k: nat) -> bool
        decreases k,
    {
        k > 0 ==> self.reducible_by((k - 1) as nat) && self.reduce_by((k - 1) as nat).reducible()
    }

    /// All of `min_except` can be taken away and the initial state registered.
    pub open spec fn reducible_to_epsilon(self) -> bool {
        &&& self.reducible_by(self.min_except.len())
        &&& self.reduce_by(self.min_except.len()).has_outputs_at(0)
    }

    /// The model after all of `min_except` has been taken away and the initial
    /// state registered.
    pub open spec fn reduce_to_epsilon(self) -> Model {
        self.reduce_by(self.min_except.len()).add_signature(0)
    }

    /// The transducer of the one word `word` with the output `output`: a chain of
    /// states 0, 1, .. that emits everything at the start. It is minimal except
    /// along the word itself.
    pub open spec fn single(word: Seq<char>, output: usize) -> Model {
        Model {
            alphabet: word.to_set(),
            states: Set::new(|q: usize| q <= word.len()),
            finality: set![word.len() as usize],
            delta: Map::new(
                |k: (usize, char)| k.0 < word.len() && k.1 == word[k.0 as int],
                |k: (usize, char)| (k.0 + 1) as usize,
            ),
            delta_inv: Set::new(
                |e: (usize, char, usize)| e.2 < word.len() && e.1 == word[e.2 as int]
                    && e.0 == e.2 + 1,
            ),
            lambda: Map::new(
                |k: (usize, char)| k.0 < word.len() && k.1 == word[k.0 as int],
                |k: (usize, char)| 0usize,
            ),
            iota: output,
            psi: map![word.len() as usize => 0usize],
            min_except: word,
            index: Map::empty(),
        }
    }
}

/// Up to a greater state more transitions leave.
pub proof fn lemma_degrees_grow(m: Model, i: nat, j: nat)
    requires
        i <= j,
    ensures
        m.degrees_below(i) <= m.degrees_below(j),
    decreases j,
{
    if i < j {
        lemma_degrees_grow(m, i, (j - 1) as nat);
    }
}

/// Fewer steps can be made where more can.
pub proof fn lemma_reducible_by_fewer(m: Model, k: nat, j: nat)
    requires
        m.reducible_by(k),
        j <= k,
    ensures
        m.reducible_by(j),
    decreases k,
{
    if j < k {
        lemma_reducible_by_fewer(m, (k - 1) as nat, j);
    }
}

/// Taking labels from `min_except` leaves the initial output alone.
pub proof fn lemma_reduce_by_iota(m: Model, k: nat)
    ensures
        m.reduce_by(k).iota == m.iota,
    decreases k,
{
    if k > 0 {
        lemma_reduce_by_iota(m, (k - 1) as nat);
    }
}

/// Each step takes one label from `min_except`.
pub proof fn lemma_reduce_by_min_except(m: Model, k: nat)
    requires
        k <= m.min_except.len(),
    ensures
        m.reduce_by(k).min_except == m.min_except.take(m.min_except.len() - k),
    decreases k,
{
    if k == 0 {
        assert(m.min_except.take(m.min_except.len() as int) =~= m.min_except);
    } else {
        lemma_reduce_by_min_except(m, (k - 1) as nat);
        let r = m.reduce_by((k - 1) as nat);
        assert(r.min_except.drop_last() =~= m.min_except.take(m.min_except.len() - k));
    }
}

/// What is read depends on the transitions alone, and what is emitted on the
/// way on the transitions and their outputs.
pub proof fn lemma_run_same_delta(a: Model, b: Model, q: usize, w: Seq<char>)
    requires
        a.delta == b.delta,
    ensures
        a.run(q, w) == b.run(q, w),
        a.lambda == b.lambda ==> a.weight(q, w) == b.weight(q, w),
    decreases w.len(),
{
    reveal_with_fuel(Model::run, 2);
    reveal_with_fuel(Model::weight, 2);
    if w.len() > 0 {
        lemma_run_same_delta(a, b, q, w.drop_last());
    }
}

/// Reading nothing leaves the transducer where it is and emits nothing.
pub proof fn lemma_run_empty(m: Model, q: usize)
    ensures
        m.run(q, Seq::<char>::empty()) == Some(q),
        m.weight(q, Seq::<char>::empty()) == 0,
{
    reveal_with_fuel(Model::run, 2);
    reveal_with_fuel(Model::weight, 2);
}

/// Reading a word is reading all but its last label and then making one step.
pub proof fn lemma_run_last(m: Model, q: usize, w: Seq<char>)
    requires
        w.len() > 0,
    ensures
        m.run(q, w) == match m.run(q, w.drop_last()) {
            Some(p) => if m.delta.contains_key((p, w.last())) {
                Some(m.delta[(p, w.last())])
            } else {
                None
            },
            None => None,
        },
        m.weight(q, w) == m.weight(q, w.drop_last()) + match m.run(q, w.drop_last()) {
            Some(p) => m.edge_output(p, w.last()),
            None => 0,
        },
{
    reveal_with_fuel(Model::run, 2);
    reveal_with_fuel(Model::weight, 2);
}

/// Reading `u` and then `v` is reading `u + v`.
pub proof fn lemma_run_concat(m: Model, q: usize, u: Seq<char>, v: Seq<char>)
    ensures
        m.run(q, u + v) == match m.run(q, u) {
            Some(p) => m.run(p, v),
            None => None,
        },
        m.weight(q, u + v) == m.weight(q, u) + match m.run(q, u) {
            Some(p) => m.weight(p, v),
            None => 0,
        },
    decreases v.len(),
{
    reveal_with_fuel(Model::run, 2);
    reveal_with_fuel(Model::weight, 2);
    if v.len() == 0 {
        assert(u + v =~= u);
    } else {
        assert((u + v).drop_last() =~= u + v.drop_last());
        assert((u + v).last() == v.last());
        lemma_run_concat(m, q, u, v.drop_last());
    }
}

/// A word that can be read has only prefixes that can be read.
pub proof fn lemma_run_prefix(m: Model, q: usize, w: Seq<char>, i: int)
    requires
        0 <= i <= w.len(),
        m.run(q, w) is Some,
    ensures
        m.run(q, w.take(i)) is Some,
        m.weight(q, w.take(i)) <= m.weight(q, w),
    decreases w.len(),
{
    reveal_with_fuel(Model::run, 2);
    reveal_with_fuel(Model::weight, 2);
    if i == w.len() {
        assert(w.take(i) =~= w);
    } else {
        assert(w.drop_last().take(i) =~= w.take(i));
        lemma_run_prefix(m, q, w.drop_last(), i);
    }
}

/// Reading one more label is one more step.
pub proof fn lemma_run_step(m: Model, q: usize, w: Seq<char>, i: int)
    requires
        0 <= i < w.len(),
    ensures
        m.run(q, w.take(i + 1)) == match m.run(q, w.take(i)) {
            Some(p) => if m.delta.contains_key((p, w[i])) {
                Some(m.delta[(p, w[i])])
            } else {
                None
            },
            None => None,
        },
        m.weight(q, w.take(i + 1)) == m.weight(q, w.take(i)) + match m.run(q, w.take(i)) {
            Some(p) => m.edge_output(p, w[i]),
            None => 0,
        },
{
    reveal_with_fuel(Model::run, 2);
    reveal_with_fuel(Model::weight, 2);
    assert(w.take(i + 1).drop_last() =~= w.take(i));
    assert(w.take(i + 1).last() == w[i]);
}

} // verus!
