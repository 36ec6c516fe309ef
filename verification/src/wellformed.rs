//! What holds of a transducer between operations.

use crate::model::{
    lemma_run_empty, lemma_run_last, lemma_run_prefix, lemma_run_step, Model, SignatureView,
};
use vstd::prelude::*;

verus! {

impl Model {
    /// The parts of the store agree with each other: transitions and outputs
    /// are defined together, transitions run between states on labels of the
    /// alphabet and never enter the initial state, the inverse relation holds
    /// exactly the transitions, and the final outputs are those of the final
    /// states.
    #[verifier::opaque]
    pub open spec fn consistent(self) -> bool {
        &&& self.states.contains(0)
        &&& forall|k: (usize, char)| #[trigger]
            self.delta.contains_key(k) ==> {
                &&& self.lambda.contains_key(k)
                &&& self.states.contains(k.0)
                &&& self.states.contains(self.delta[k])
                &&& self.alphabet.contains(k.1)
                &&& self.delta[k] != 0
                &&& self.delta_inv.contains((self.delta[k], k.1, k.0))
            }
        &&& forall|k: (usize, char)| #[trigger]
            self.lambda.contains_key(k) ==> self.delta.contains_key(k)
        &&& forall|e: (usize, char, usize)| #[trigger]
            self.delta_inv.contains(e) ==> self.delta.contains_key((e.2, e.1)) && self.delta[(
                e.2,
                e.1,
            )] == e.0
        &&& forall|q: usize| #[trigger] self.psi.contains_key(q) ==> self.finality.contains(q)
        &&& forall|q: usize| #[trigger]
            self.finality.contains(q) ==> self.psi.contains_key(q) && self.states.contains(q)
    }

    /// The `i`-th state on the way along `min_except`.
    pub open spec fn path_state(self, i: int) -> usize {
        self.state_after(self.min_except.take(i))
    }

    /// `q` lies on the way along `min_except`.
    pub open spec fn on_path(self, q: usize) -> bool {
        exists|i: int| 0 <= i <= self.min_except.len() && #[trigger] self.path_state(i) == q
    }

    /// `min_except` can be read, and each state on the way but the first is
    /// entered by the transition of the path alone.
    #[verifier::opaque]
    pub open spec fn private_path(self) -> bool {
        &&& self.reads(self.min_except)
        &&& forall|k: (usize, char), i: int|
            #![trigger self.delta.contains_key(k), self.path_state(i)]
            self.delta.contains_key(k) && 1 <= i <= self.min_except.len() && self.delta[k]
                == self.path_state(i) ==> k == (
                self.state_after(self.min_except.take(i - 1)),
                self.min_except[i - 1],
            )
    }

    /// `q` is registered under its signature.
    pub open spec fn registered(self, q: usize) -> bool {
        self.index.contains_key(self.signature(q)) && self.index[self.signature(q)] == q
    }

    /// The index holds the states off the path, each under its signature, and
    /// nothing else.
    #[verifier::opaque]
    pub open spec fn index_exact(self) -> bool {
        &&& forall|q: usize| #[trigger] self.states.contains(q) && !self.on_path(q)
            ==> self.registered(q)
        &&& forall|s: SignatureView| #[trigger]
            self.index.contains_key(s) ==> {
                &&& self.states.contains(self.index[s])
                &&& self.signature(self.index[s]) == s
                &&& !self.on_path(self.index[s])
            }
    }

    /// Whatever can be read has an output that fits the machine word.
    #[verifier::opaque]
    pub open spec fn fits(self) -> bool {
        forall|w: Seq<char>| #[trigger] self.reads(w) ==> self.output(w) <= usize::MAX
    }

    /// Some word leads from the initial state to `x`.
    pub open spec fn reachable(self, x: usize) -> bool {
        exists|u: Seq<char>| self.run(0, u) == Some(x)
    }

    /// Every state is reached from the initial state.
    #[verifier::opaque]
    pub open spec fn accessible(self) -> bool {
        forall|x: usize| #[trigger] self.states.contains(x) ==> self.reachable(x)
    }

    /// No word but the empty one leads from a state back to it.
    #[verifier::opaque]
    pub open spec fn acyclic(self) -> bool {
        forall|x: usize, u: Seq<char>| #[trigger] self.run(x, u) == Some(x) ==> u.len() == 0
    }

    /// Every transition leads to a state of lower rank.
    pub open spec fn ranks(self, rank: spec_fn(usize) -> nat) -> bool {
        forall|k: (usize, char)| #[trigger] self.delta.contains_key(k) ==> rank(k.0) > rank(
            self.delta[k],
        )
    }

    /// The states can be ranked so that every transition leads to a state of
    /// lower rank.
    #[verifier::opaque]
    pub open spec fn ranked(self) -> bool {
        exists|rank: spec_fn(usize) -> nat| self.ranks(rank)
    }

    /// Every state is reached from the initial state, and the states can be
    /// ranked: no state is reached from itself.
    pub open spec fn rooted(self) -> bool {
        self.accessible() && self.ranked()
    }

    /// The transducer is sound and minimal except along `min_except`: the store
    /// is consistent, the path along `min_except` is private, the states off
    /// the path are registered, each under a signature of its own, and the
    /// outputs fit.
    pub open spec fn inv(self) -> bool {
        &&& self.consistent()
        &&& self.private_path()
        &&& self.index_exact()
        &&& self.fits()
    }

    /// The transducer is sound and minimal: `min_except` is empty and every
    /// state, the initial one too, is registered under a signature of its own.
    pub open spec fn minimal(self) -> bool {
        &&& self.consistent()
        &&& self.min_except.len() == 0
        &&& forall|q: usize| #[trigger] self.states.contains(q) ==> self.registered(q)
        &&& forall|s: SignatureView| #[trigger]
            self.index.contains_key(s) ==> self.states.contains(self.index[s]) && self.signature(
                self.index[s],
            ) == s
        &&& self.fits()
        &&& self.rooted()
    }

    /// The transducer is sound, rooted and minimal except along `min_except`.
    pub open spec fn sound(self) -> bool {
        self.inv() && self.rooted()
    }
}

/// The two transducers read the same words, give them the same outputs and
/// accept the same ones.
pub open spec fn equivalent(a: Model, b: Model) -> bool {
    forall|w: Seq<char>|
        #![trigger a.reads(w)]
        #![trigger b.reads(w)]
        {
            &&& a.reads(w) == b.reads(w)
            &&& a.reads(w) ==> a.output(w) == b.output(w) && a.accepts(w) == b.accepts(w)
        }
}

/// Two transducers that each compute what a third computes compute the same.
pub proof fn lemma_equivalent_trans(a: Model, b: Model, c: Model)
    requires
        equivalent(a, b),
        equivalent(b, c),
    ensures
        equivalent(a, c),
{
    assert forall|w: Seq<char>|
        #![trigger a.reads(w)]
        #![trigger c.reads(w)]
        {
            &&& a.reads(w) == c.reads(w)
            &&& a.reads(w) ==> a.output(w) == c.output(w) && a.accepts(w) == c.accepts(w)
        } by {
        assert(a.reads(w) == b.reads(w));
        assert(b.reads(w) == c.reads(w));
    }
}

/// A transducer computes what it computes.
pub proof fn lemma_equivalent_refl(a: Model)
    ensures
        equivalent(a, a),
{
}

/// Along a word that a consistent transducer reads every transition has an
/// output, and where the outputs fit, what is emitted along the word fits.
pub proof fn lemma_reads_outputs(m: Model, w: Seq<char>)
    requires
        m.consistent(),
        m.fits(),
        m.reads(w),
    ensures
        m.has_outputs_along(w),
        m.output(w) <= usize::MAX,
        m.lambda_star(w) <= usize::MAX,
        m.prefix_output(w) <= usize::MAX,
{
    reveal(Model::consistent);
    reveal(Model::fits);
    assert forall|i: int| 0 <= i < w.len() implies m.lambda.contains_key(
        (#[trigger] m.state_after(w.take(i)), w[i]),
    ) by {
        lemma_run_prefix(m, 0, w, i + 1);
        lemma_run_prefix(m, 0, w, i);
        lemma_run_step(m, 0, w, i);
    }
}

/// A word that is not empty leads to a state of lower rank.
pub proof fn lemma_run_lowers(m: Model, rank: spec_fn(usize) -> nat, x: usize, u: Seq<char>)
    requires
        m.ranks(rank),
        u.len() > 0,
        m.run(x, u) is Some,
    ensures
        rank(m.run(x, u).unwrap()) < rank(x),
    decreases u.len(),
{
    lemma_run_last(m, x, u);
    if u.len() == 1 {
        lemma_run_empty(m, x);
        assert(u.drop_last() =~= Seq::<char>::empty());
    } else {
        lemma_run_lowers(m, rank, x, u.drop_last());
    }
}

/// In a transducer whose states can be ranked no word but the empty one leads
/// from a state back to it.
pub proof fn lemma_ranked_acyclic(m: Model)
    requires
        m.ranked(),
    ensures
        m.acyclic(),
{
    reveal(Model::ranked);
    reveal(Model::acyclic);
    let rank = choose|rank: spec_fn(usize) -> nat| m.ranks(rank);
    assert forall|x: usize, u: Seq<char>| #[trigger] m.run(x, u) == Some(x)
        implies u.len() == 0 by {
        if u.len() > 0 {
            lemma_run_lowers(m, rank, x, u);
        }
    }
}

/// A transducer that has no transitions but those of one whose states can be
/// ranked can be ranked too.
pub proof fn lemma_ranked_sub(a: Model, r: Model)
    requires
        a.ranked(),
        forall|k: (usize, char)| #[trigger]
            r.delta.contains_key(k) ==> a.delta.contains_key(k) && a.delta[k] == r.delta[k],
    ensures
        r.ranked(),
{
    reveal(Model::ranked);
    let rank = choose|rank: spec_fn(usize) -> nat| a.ranks(rank);
    assert(r.ranks(rank));
}

} // verus!
