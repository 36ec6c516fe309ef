//! Sets of state identifiers.

use std::collections::BTreeSet;
use vstd::prelude::*;

verus! {

broadcast use {vstd::std_specs::btree::group_btree_axioms, vstd::laws_cmp::group_laws_cmp};

/// Whether `q` is in the set.
pub fn has_state(set: &BTreeSet<usize>, q: usize) -> (r: bool)
    ensures
        r == set@.contains(q),
{
    set.contains(&q)
}

/// Puts `q` into the set.
pub fn insert_state(set: &mut BTreeSet<usize>, q: usize)
    ensures
        final(set)@ == old(set)@.insert(q),
{
    set.insert(q);
}

/// Takes `q` out of the set.
pub fn remove_state(set: &mut BTreeSet<usize>, q: usize)
    ensures
        final(set)@ == old(set)@.remove(q),
{
    set.remove(&q);
}

/// `BTreeSet::last`: the greatest element of the set, and `None` for the empty set.
#[verifier::external_body]
pub(crate) fn greatest_state(set: &BTreeSet<usize>) -> (r: Option<&usize>)
    ensures
        match r {
            Some(m) => set@.contains(*m) && forall|x: usize| set@.contains(x) ==> x <= *m,
            None => forall|x: usize| !set@.contains(x),
        },
{
    set.last()
}

} // verus!
