//! The inverse transition relation: for each state, the transitions that enter it.

use std::collections::HashMap;
use vstd::prelude::*;

verus! {

broadcast use vstd::std_specs::hash::group_hash_axioms;

/// Every stored row is non-empty and holds each pair once.
pub open spec fn preds_inv(rows: Map<usize, Vec<(char, usize)>>) -> bool {
    forall|q: usize| #[trigger]
        rows.contains_key(q) ==> rows[q]@.len() > 0 && rows[q]@.no_duplicates()
}

/// The set of (target, label, source) triples that the rows spell out.
pub open spec fn preds_view(rows: Map<usize, Vec<(char, usize)>>) -> Set<(usize, char, usize)> {
    Set::new(|e: (usize, char, usize)| rows.contains_key(e.0) && rows[e.0]@.contains((e.1, e.2)))
}

/// Position of the pair `(c, s)` in `row`, if it is there.
fn pair_find(row: &Vec<(char, usize)>, c: char, s: usize) -> (r: Option<usize>)
    ensures
        match r {
            Some(i) => i < row.len() && row[i as int] == (c, s),
            None => !row@.contains((c, s)),
        },
{
    let mut i: usize = 0;
    while i < row.len()
        invariant
            i <= row.len(),
            forall|j: int| 0 <= j < i ==> #[trigger] row[j] != (c, s),
        decreases row.len() - i,
    {
        if row[i].0 == c && row[i].1 == s {
            return Some(i);
        }
        i += 1;
    }
    None
}

/// A set of (target, label, source) triples, stored by target.
pub struct Inverse {
    rows: HashMap<usize, Vec<(char, usize)>>,
}

impl View for Inverse {
    type V = Set<(usize, char, usize)>;

    closed spec fn view(&self) -> Set<(usize, char, usize)> {
        preds_view(self.rows@)
    }
}

impl Inverse {
    /// The representation is sound: no row is empty or repeats a pair.
    pub closed spec fn wf(&self) -> bool {
        preds_inv(self.rows@)
    }

    /// The empty relation.
    pub fn new() -> (t: Inverse)
        ensures
            t.wf(),
            t@ == Set::<(usize, char, usize)>::empty(),
    {
        let t = Inverse { rows: HashMap::new() };
        assert(t@ =~= Set::<(usize, char, usize)>::empty());
        t
    }

    /// The empty relation, with room for `capacity` targets.
    pub fn with_capacity(capacity: usize) -> (t: Inverse)
        ensures
            t.wf(),
            t@ == Set::<(usize, char, usize)>::empty(),
    {
        let t = Inverse { rows: HashMap::with_capacity(capacity) };
        assert(t@ =~= Set::<(usize, char, usize)>::empty());
        t
    }

    /// The transitions that enter `target`, each once, as (label, source) pairs.
    pub fn row(&self, target: usize) -> (r: Option<&Vec<(char, usize)>>)
        requires
            self.wf(),
        ensures
            match r {
                Some(row) => {
                    &&& row@.len() > 0
                    &&& row@.no_duplicates()
                    &&& forall|c: char, s: usize| row@.contains((c, s))
                        <==> self@.contains((target, c, s))
                },
                None => forall|c: char, s: usize| !self@.contains((target, c, s)),
            },
    {
        self.rows.get(&target)
    }

    /// The rows as stored: one non-empty row for each state that is entered.
    pub fn rows(&self) -> (r: &HashMap<usize, Vec<(char, usize)>>)
        ensures
            self.wf() ==> preds_inv(r@),
            preds_view(r@) == self@,
    {
        &self.rows
    }

    /// Records that the transition from `source` on `c` enters `target`.
    pub fn insert(&mut self, target: usize, c: char, source: usize)
        requires
            old(self).wf(),
        ensures
            final(self).wf(),
            final(self)@ == old(self)@.insert((target, c, source)),
    {
        let ghost before = self.rows@;
        let mut row: Vec<(char, usize)> = match self.rows.remove(&target) {
            Some(row) => row,
            None => Vec::new(),
        };
        let ghost old_row = row@;
        match pair_find(&row, c, source) {
            Some(_) => {},
            None => {
                row.push((c, source));
                proof {
                    assert forall|i: int, j: int| 0 <= i < row@.len() && 0 <= j < row@.len()
                        && i != j implies row@[i] != row@[j] by {
                        if i < old_row.len() && j < old_row.len() {
                            assert(old_row[i] != old_row[j]);
                        } else if i < old_row.len() {
                            assert(old_row[i] != (c, source));
                        } else {
                            assert(old_row[j] != (c, source));
                        }
                    }
                }
            },
        }
        let ghost new_row = row@;
        self.rows.insert(target, row);
        proof {
            assert forall|e: (char, usize)| new_row.contains(e)
                <==> (e == (c, source) || old_row.contains(e)) by {
                if new_row.contains(e) {
                    let i = choose|i: int| 0 <= i < new_row.len() && new_row[i] == e;
                    if i < old_row.len() {
                        assert(old_row[i] == e);
                    }
                }
                if old_row.contains(e) {
                    let i = choose|i: int| 0 <= i < old_row.len() && old_row[i] == e;
                    assert(new_row[i] == e);
                }
                if e == (c, source) && !old_row.contains(e) {
                    assert(new_row[old_row.len() as int] == e);
                }
            }
            assert(self@ =~= preds_view(before).insert((target, c, source))) by {
                assert forall|e: (usize, char, usize)| self@.contains(e)
                    <==> preds_view(before).insert((target, c, source)).contains(e) by {
                    if e.0 == target {
                        assert(new_row.contains((e.1, e.2))
                            <==> ((e.1, e.2) == (c, source) || old_row.contains((e.1, e.2))));
                    }
                }
            }
        }
    }

    /// Forgets that the transition from `source` on `c` enters `target`.
    pub fn remove(&mut self, target: usize, c: char, source: usize)
        requires
            old(self).wf(),
        ensures
            final(self).wf(),
            final(self)@ == old(self)@.remove((target, c, source)),
    {
        let ghost before = self.rows@;
        match self.rows.remove(&target) {
            Some(mut row) => {
                let ghost old_row = row@;
                match pair_find(&row, c, source) {
                    Some(i) => {
                        row.remove(i);
                        proof {
                            let new_row = row@;
                            assert forall|a: int| 0 <= a < new_row.len()
                                implies #[trigger] new_row[a] == old_row[if a < i { a } else { a
                                    + 1 }] by {}
                            assert forall|a: int, b: int| 0 <= a < new_row.len()
                                && 0 <= b < new_row.len() && a != b
                                    implies new_row[a] != new_row[b] by {
                                let a2 = if a < i { a } else { a + 1 };
                                let b2 = if b < i { b } else { b + 1 };
                                assert(old_row[a2] != old_row[b2]);
                            }
                            assert forall|e: (char, usize)| new_row.contains(e)
                                <==> (e != (c, source) && old_row.contains(e)) by {
                                if new_row.contains(e) {
                                    let a = choose|a: int| 0 <= a < new_row.len()
                                        && new_row[a] == e;
                                    let a2 = if a < i { a } else { a + 1 };
                                    assert(old_row[a2] == e);
                                    assert(old_row[a2] != old_row[i as int]);
                                }
                                if e != (c, source) && old_row.contains(e) {
                                    let a = choose|a: int| 0 <= a < old_row.len()
                                        && old_row[a] == e;
                                    let a2 = if a < i { a } else { a - 1 };
                                    assert(new_row[a2] == e);
                                }
                            }
                        }
                    },
                    None => {},
                }
                let ghost new_row = row@;
                if row.len() > 0 {
                    self.rows.insert(target, row);
                }
                proof {
                    assert forall|e: (usize, char, usize)| self@.contains(e)
                        <==> preds_view(before).remove((target, c, source)).contains(e) by {
                        if e.0 == target {
                            assert(new_row.contains((e.1, e.2))
                                <==> ((e.1, e.2) != (c, source) && old_row.contains((e.1, e.2))));
                            if new_row.len() == 0 && new_row.contains((e.1, e.2)) {
                                let a = choose|a: int| 0 <= a < new_row.len()
                                    && new_row[a] == (e.1, e.2);
                            }
                        }
                    }
                }
            },
            None => {},
        }
        assert(self@ =~= preds_view(before).remove((target, c, source)));
    }

    /// Removes all the transitions that enter `target` and returns them.
    pub fn remove_row(&mut self, target: usize) -> (r: Option<Vec<(char, usize)>>)
        requires
            old(self).wf(),
        ensures
            final(self).wf(),
            final(self)@ == old(self)@.filter(|e: (usize, char, usize)| e.0 != target),
            match r {
                Some(row) => {
                    &&& row@.len() > 0
                    &&& row@.no_duplicates()
                    &&& forall|c: char, s: usize| row@.contains((c, s))
                        <==> old(self)@.contains((target, c, s))
                },
                None => forall|c: char, s: usize| !old(self)@.contains((target, c, s)),
            },
    {
        let r = self.rows.remove(&target);
        assert(self@ =~= old(self)@.filter(|e: (usize, char, usize)| e.0 != target));
        r
    }
}

} // verus!
