//! Helpers shared by the transducer: the two-level transition table and the
//! longest common prefix of two words.

use std::collections::HashMap;
use vstd::prelude::*;

verus! {

broadcast use vstd::std_specs::hash::group_hash_axioms;

/// Whether a row holds an entry for the label `c`.
pub open spec fn row_has<K, V>(row: Seq<(K, V)>, c: K) -> bool {
    exists|i: int| 0 <= i < row.len() && (#[trigger] row[i]).0 == c
}

/// The value that a row holds for the label `c`.
pub open spec fn row_value<K, V>(row: Seq<(K, V)>, c: K) -> V {
    row[choose|i: int| 0 <= i < row.len() && (#[trigger] row[i]).0 == c].1
}

/// No label occurs twice in the row.
pub open spec fn row_distinct<K, V>(row: Seq<(K, V)>) -> bool {
    forall|i: int, j: int|
        0 <= i < j < row.len() ==> (#[trigger] row[i]).0 != (#[trigger] row[j]).0
}

/// The finite map that a row spells out.
pub open spec fn row_map<K, V>(row: Seq<(K, V)>) -> Map<K, V> {
    Map::new(|k: K| row_has(row, k), |k: K| row_value(row, k))
}

/// In a row without repeated labels, the entry at `i` is the row's value for its label.
pub proof fn lemma_row_value<K, V>(row: Seq<(K, V)>, i: int)
    requires
        row_distinct(row),
        0 <= i < row.len(),
    ensures
        row_has(row, row[i].0),
        row_value(row, row[i].0) == row[i].1,
{
    let c = row[i].0;
    let j = choose|j: int| 0 <= j < row.len() && (#[trigger] row[j]).0 == c;
    if j < i {
        assert(row[j].0 != row[i].0);
    } else if i < j {
        assert(row[i].0 != row[j].0);
    }
}

/// The labels for which a table holds something at the state `q`.
pub open spec fn labels_at(table: Map<(usize, char), usize>, q: usize) -> Set<char> {
    Set::new(|c: char| table.contains_key((q, c)))
}

/// A row without repeated labels has as many labels as entries.
pub proof fn lemma_row_labels<V>(row: Seq<(char, V)>)
    requires
        row_distinct(row),
    ensures
        Set::new(|c: char| row_has(row, c)).finite(),
        Set::new(|c: char| row_has(row, c)).len() == row.len(),
    decreases row.len(),
{
    let labels = Set::new(|c: char| row_has(row, c));
    if row.len() == 0 {
        assert(labels =~= Set::<char>::empty());
    } else {
        let rest = row.drop_last();
        let before = Set::new(|c: char| row_has(rest, c));
        lemma_row_labels(rest);
        let last = row.last().0;
        assert(row == rest.push(row.last()));
        lemma_row_value(row, row.len() - 1);
        assert(!before.contains(last)) by {
            if row_has(rest, last) {
                let j = choose|j: int| 0 <= j < rest.len() && (#[trigger] rest[j]).0 == last;
                assert(row[j].0 != row[row.len() - 1].0);
            }
        }
        assert(labels =~= before.insert(last)) by {
            assert forall|c: char| labels.contains(c) <==> before.insert(last).contains(c) by {
                if row_has(row, c) {
                    let j = choose|j: int| 0 <= j < row.len() && (#[trigger] row[j]).0 == c;
                    if j < rest.len() {
                        assert(rest[j].0 == c);
                    }
                }
                if row_has(rest, c) {
                    let j = choose|j: int| 0 <= j < rest.len() && (#[trigger] rest[j]).0 == c;
                    assert(row[j].0 == c);
                }
            }
        }
    }
}

/// Every stored row is non-empty and holds each label once.
pub open spec fn rows_inv(rows: Map<usize, Vec<(char, usize)>>) -> bool {
    forall|q: usize| #[trigger]
        rows.contains_key(q) ==> rows[q]@.len() > 0 && row_distinct(rows[q]@)
}

/// The partial function from (state, label) to value that the rows spell out.
pub open spec fn rows_view(rows: Map<usize, Vec<(char, usize)>>) -> Map<(usize, char), usize> {
    Map::new(
        |k: (usize, char)| rows.contains_key(k.0) && row_has(rows[k.0]@, k.1),
        |k: (usize, char)| row_value(rows[k.0]@, k.1),
    )
}

/// Position of the label `c` in `row`, if it is there.
pub fn row_find<V>(row: &Vec<(char, V)>, c: char) -> (r: Option<usize>)
    ensures
        match r {
            Some(i) => i < row.len() && row[i as int].0 == c,
            None => !row_has(row@, c),
        },
{
    let mut i: usize = 0;
    while i < row.len()
        invariant
            i <= row.len(),
            forall|j: int| 0 <= j < i ==> (#[trigger] row[j]).0 != c,
        decreases row.len() - i,
    {
        if row[i].0 == c {
            return Some(i);
        }
        i += 1;
    }
    None
}

/// A copy of a row.
pub fn copy_row(row: &Vec<(char, usize)>) -> (r: Vec<(char, usize)>)
    ensures
        r@ == row@,
{
    let mut r: Vec<(char, usize)> = Vec::new();
    let mut i: usize = 0;
    while i < row.len()
        invariant
            i <= row.len(),
            r@ == row@.take(i as int),
        decreases row.len() - i,
    {
        r.push(row[i]);
        assert(r@ =~= row@.take(i + 1));
        i += 1;
    }
    assert(row@.take(i as int) =~= row@);
    r
}

/// A partial function from (state, label) to `usize`, stored row by row.
///
/// Both the transition function and the transition outputs of a transducer are
/// tables; its view is the mathematical map itself.
pub struct Table {
    rows: HashMap<usize, Vec<(char, usize)>>,
}

impl View for Table {
    type V = Map<(usize, char), usize>;

    closed spec fn view(&self) -> Map<(usize, char), usize> {
        rows_view(self.rows@)
    }
}

impl Table {
    /// The representation is sound: no row is empty or repeats a label.
    pub closed spec fn wf(&self) -> bool {
        rows_inv(self.rows@)
    }

    /// The empty table.
    pub fn new() -> (t: Table)
        ensures
            t.wf(),
            t@ == Map::<(usize, char), usize>::empty(),
    {
        let t = Table { rows: HashMap::new() };
        assert(t@ =~= Map::<(usize, char), usize>::empty());
        t
    }

    /// The empty table, with room for `capacity` rows.
    pub fn with_capacity(capacity: usize) -> (t: Table)
        ensures
            t.wf(),
            t@ == Map::<(usize, char), usize>::empty(),
    {
        let t = Table { rows: HashMap::with_capacity(capacity) };
        assert(t@ =~= Map::<(usize, char), usize>::empty());
        t
    }

    /// The value stored for state `q` and label `c`, if any.
    pub fn get(&self, q: usize, c: char) -> (r: Option<usize>)
        requires
            self.wf(),
        ensures
            r == (if self@.contains_key((q, c)) {
                Some(self@[(q, c)])
            } else {
                None
            }),
    {
        match self.rows.get(&q) {
            Some(row) => {
                match row_find(row, c) {
                    Some(i) => {
                        proof {
                            lemma_row_value(row@, i as int);
                        }
                        Some(row[i].1)
                    },
                    None => None,
                }
            },
            None => None,
        }
    }

    /// The row of state `q`: its labels with their values, each label once.
    pub fn row(&self, q: usize) -> (r: Option<&Vec<(char, usize)>>)
        requires
            self.wf(),
        ensures
            match r {
                Some(row) => {
                    &&& row@.len() > 0
                    &&& row_distinct(row@)
                    &&& forall|c: char| row_has(row@, c) <==> self@.contains_key((q, c))
                    &&& forall|c: char| row_has(row@, c) ==> row_value(row@, c) == self@[(q, c)]
                },
                None => forall|c: char| !self@.contains_key((q, c)),
            },
    {
        self.rows.get(&q)
    }

    /// The number of labels for which the table holds something at the state `q`.
    pub fn degree(&self, q: usize) -> (r: usize)
        requires
            self.wf(),
        ensures
            labels_at(self@, q).finite(),
            r == labels_at(self@, q).len(),
    {
        match self.rows.get(&q) {
            Some(row) => {
                proof {
                    lemma_row_labels(row@);
                    assert(labels_at(self@, q) =~= Set::new(|c: char| row_has(row@, c)));
                }
                row.len()
            },
            None => {
                assert(labels_at(self@, q) =~= Set::<char>::empty());
                0
            },
        }
    }

    /// The rows as stored: one non-empty row for each state that has an entry.
    pub fn rows(&self) -> (r: &HashMap<usize, Vec<(char, usize)>>)
        ensures
            self.wf() ==> rows_inv(r@),
            rows_view(r@) == self@,
    {
        &self.rows
    }

    /// Replaces the whole row of state `q` by `row`.
    pub fn set_row(&mut self, q: usize, row: Vec<(char, usize)>)
        requires
            old(self).wf(),
            row_distinct(row@),
        ensures
            final(self).wf(),
            final(self)@ == Map::new(
                |k: (usize, char)|
                    if k.0 == q {
                        row_has(row@, k.1)
                    } else {
                        old(self)@.contains_key(k)
                    },
                |k: (usize, char)|
                    if k.0 == q {
                        row_value(row@, k.1)
                    } else {
                        old(self)@[k]
                    },
            ),
    {
        let ghost target = Map::new(
            |k: (usize, char)|
                if k.0 == q {
                    row_has(row@, k.1)
                } else {
                    old(self)@.contains_key(k)
                },
            |k: (usize, char)|
                if k.0 == q {
                    row_value(row@, k.1)
                } else {
                    old(self)@[k]
                },
        );
        if row.len() > 0 {
            self.rows.insert(q, row);
        } else {
            self.rows.remove(&q);
        }
        assert(self@ =~= target);
    }

    /// Removes the whole row of state `q` and returns it.
    pub fn remove_row(&mut self, q: usize) -> (r: Option<Vec<(char, usize)>>)
        requires
            old(self).wf(),
        ensures
            final(self).wf(),
            final(self)@ == old(self)@.restrict(Set::new(|k: (usize, char)| k.0 != q)),
            match r {
                Some(row) => {
                    &&& row@.len() > 0
                    &&& row_distinct(row@)
                    &&& forall|c: char| row_has(row@, c) <==> old(self)@.contains_key((q, c))
                    &&& forall|c: char| row_has(row@, c)
                        ==> row_value(row@, c) == old(self)@[(q, c)]
                },
                None => forall|c: char| !old(self)@.contains_key((q, c)),
            },
    {
        let r = self.rows.remove(&q);
        assert(self@ =~= old(self)@.restrict(Set::new(|k: (usize, char)| k.0 != q)));
        r
    }
}

/// A row with one more entry, for a label it did not hold.
pub proof fn lemma_row_push<K, V>(row: Seq<(K, V)>, c: K, v: V)
    requires
        row_distinct(row),
        !row_has(row, c),
    ensures
        row_distinct(row.push((c, v))),
        forall|d: K| row_has(row.push((c, v)), d) <==> (d == c || row_has(row, d)),
        row_value(row.push((c, v)), c) == v,
        forall|d: K| d != c && row_has(row, d)
            ==> row_value(row.push((c, v)), d) == row_value(row, d),
        row_map(row.push((c, v))) == row_map(row).insert(c, v),
{
    let new = row.push((c, v));
    assert(row_distinct(new)) by {
        assert forall|i: int, j: int| 0 <= i < j < new.len()
            implies (#[trigger] new[i]).0 != (#[trigger] new[j]).0 by {
            if j == row.len() {
                assert(row[i].0 != c);
            } else {
                assert(row[i].0 != row[j].0);
            }
        }
    }
    assert forall|d: K| row_has(new, d) <==> (d == c || row_has(row, d)) by {
        if row_has(new, d) {
            let i = choose|i: int| 0 <= i < new.len() && (#[trigger] new[i]).0 == d;
            if i < row.len() {
                assert(row[i].0 == d);
            }
        }
        if d == c {
            assert(new[row.len() as int].0 == c);
        }
        if row_has(row, d) {
            let i = choose|i: int| 0 <= i < row.len() && (#[trigger] row[i]).0 == d;
            assert(new[i].0 == d);
        }
    }
    lemma_row_value(new, row.len() as int);
    assert forall|d: K| d != c && row_has(row, d)
        implies row_value(new, d) == row_value(row, d) by {
        let i = choose|i: int| 0 <= i < row.len() && (#[trigger] row[i]).0 == d;
        lemma_row_value(row, i);
        assert(new[i] == row[i]);
        lemma_row_value(new, i);
    }
    assert(row_map(new) =~= row_map(row).insert(c, v));
}

/// A row with the value at position `i` replaced.
pub proof fn lemma_row_update<K, V>(row: Seq<(K, V)>, i: int, v: V)
    requires
        row_distinct(row),
        0 <= i < row.len(),
    ensures
        row_distinct(row.update(i, (row[i].0, v))),
        forall|d: K| row_has(row.update(i, (row[i].0, v)), d) <==> row_has(row, d),
        row_value(row.update(i, (row[i].0, v)), row[i].0) == v,
        forall|d: K| d != row[i].0 && row_has(row, d)
            ==> row_value(row.update(i, (row[i].0, v)), d) == row_value(row, d),
        row_map(row.update(i, (row[i].0, v))) == row_map(row).insert(row[i].0, v),
{
    let c = row[i].0;
    let new = row.update(i, (c, v));
    assert(row_distinct(new)) by {
        assert forall|a: int, b: int| 0 <= a < b < new.len()
            implies (#[trigger] new[a]).0 != (#[trigger] new[b]).0 by {
            assert(row[a].0 != row[b].0);
        }
    }
    assert forall|d: K| row_has(new, d) <==> row_has(row, d) by {
        if row_has(new, d) {
            let j = choose|j: int| 0 <= j < new.len() && (#[trigger] new[j]).0 == d;
            assert(row[j].0 == d);
        }
        if row_has(row, d) {
            let j = choose|j: int| 0 <= j < row.len() && (#[trigger] row[j]).0 == d;
            assert(new[j].0 == d);
        }
    }
    lemma_row_value(new, i);
    assert forall|d: K| d != c && row_has(row, d)
        implies row_value(new, d) == row_value(row, d) by {
        let j = choose|j: int| 0 <= j < row.len() && (#[trigger] row[j]).0 == d;
        lemma_row_value(row, j);
        assert(new[j] == row[j]);
        lemma_row_value(new, j);
    }
    lemma_row_value(row, i);
    assert(row_map(new) =~= row_map(row).insert(c, v));
}

/// A row with the entry at position `i` taken out.
pub proof fn lemma_row_remove<K, V>(row: Seq<(K, V)>, i: int)
    requires
        row_distinct(row),
        0 <= i < row.len(),
    ensures
        row_distinct(row.remove(i)),
        forall|d: K| row_has(row.remove(i), d) <==> (d != row[i].0 && row_has(row, d)),
        forall|d: K| d != row[i].0 && row_has(row, d)
            ==> row_value(row.remove(i), d) == row_value(row, d),
        row_map(row.remove(i)) == row_map(row).remove(row[i].0),
{
    let c = row[i].0;
    let new = row.remove(i);
    assert forall|a: int| 0 <= a < new.len()
        implies #[trigger] new[a] == row[if a < i { a } else { a + 1 }] by {}
    assert(row_distinct(new)) by {
        assert forall|a: int, b: int| 0 <= a < b < new.len()
            implies (#[trigger] new[a]).0 != (#[trigger] new[b]).0 by {
            let a2 = if a < i { a } else { a + 1 };
            let b2 = if b < i { b } else { b + 1 };
            assert(row[a2].0 != row[b2].0);
        }
    }
    assert forall|d: K| row_has(new, d) <==> (d != c && row_has(row, d)) by {
        if row_has(new, d) {
            let j = choose|j: int| 0 <= j < new.len() && (#[trigger] new[j]).0 == d;
            let j2 = if j < i { j } else { j + 1 };
            assert(row[j2].0 == d);
            if j2 < i {
                assert(row[j2].0 != row[i].0);
            } else {
                assert(row[i].0 != row[j2].0);
            }
        }
        if d != c && row_has(row, d) {
            let j = choose|j: int| 0 <= j < row.len() && (#[trigger] row[j]).0 == d;
            let j2 = if j < i { j } else { j - 1 };
            assert(new[j2].0 == d);
        }
    }
    assert forall|d: K| d != c && row_has(row, d)
        implies row_value(new, d) == row_value(row, d) by {
        let j = choose|j: int| 0 <= j < row.len() && (#[trigger] row[j]).0 == d;
        let j2 = if j < i { j } else { j - 1 };
        lemma_row_value(row, j);
        assert(new[j2] == row[j]);
        lemma_row_value(new, j2);
    }
    assert(row_map(new) =~= row_map(row).remove(c));
}

/// Stores `v` for state `k1` and label `k2`, replacing what was stored there.
pub fn add_to_or_insert(table: &mut Table, k1: usize, k2: char, v: usize)
    requires
        old(table).wf(),
    ensures
        final(table).wf(),
        final(table)@ == old(table)@.insert((k1, k2), v),
{
    let ghost before = table.rows@;
    let mut entries: Vec<(char, usize)> = match table.rows.remove(&k1) {
        Some(row) => row,
        None => Vec::new(),
    };
    let ghost row = entries@;
    match row_find(&entries, k2) {
        Some(i) => {
            proof {
                lemma_row_value(row, i as int);
                lemma_row_update(row, i as int, v);
            }
            entries.set(i, (k2, v));
        },
        None => {
            proof {
                lemma_row_push(row, k2, v);
            }
            entries.push((k2, v));
        },
    }
    let ghost new_row = entries@;
    table.rows.insert(k1, entries);
    proof {
        assert(table.rows@ =~= before.insert(k1, table.rows@[k1]));
        let target = rows_view(before).insert((k1, k2), v);
        assert forall|k: (usize, char)| table@.contains_key(k) <==> target.contains_key(k) by {
            if k.0 == k1 {
                assert(row_has(new_row, k.1) <==> (k.1 == k2 || row_has(row, k.1)));
            }
        }
        assert forall|k: (usize, char)| table@.contains_key(k) implies table@[k] == target[k] by {
            if k.0 == k1 && k.1 != k2 {
                assert(row_has(row, k.1));
            }
        }
        assert(table@ =~= target);
    }
}

/// Removes what is stored for state `k1` and label `k2`, if anything.
pub fn remove_from_or_delete(table: &mut Table, k1: &usize, k2: &char)
    requires
        old(table).wf(),
    ensures
        final(table).wf(),
        final(table)@ == old(table)@.remove((*k1, *k2)),
{
    let ghost before = table.rows@;
    match table.rows.remove(k1) {
        Some(mut entries) => {
            let ghost row = entries@;
            match row_find(&entries, *k2) {
                Some(i) => {
                    proof {
                        lemma_row_remove(row, i as int);
                    }
                    entries.remove(i);
                },
                None => {},
            }
            if entries.len() > 0 {
                table.rows.insert(*k1, entries);
            }
        },
        None => {},
    }
    assert(table@ =~= rows_view(before).remove((*k1, *k2)));
}

/// What the first `i + 1` elements of a sequence hold, from what the first `i` hold.
pub proof fn lemma_take_contains<T>(s: Seq<T>, i: int)
    requires
        0 <= i < s.len(),
    ensures
        forall|e: T| #[trigger] s.take(i + 1).contains(e) <==> (e == s[i] || s.take(i).contains(e)),
{
    assert forall|e: T| #[trigger] s.take(i + 1).contains(e)
        <==> (e == s[i] || s.take(i).contains(e)) by {
        if s.take(i + 1).contains(e) {
            let j = choose|j: int| 0 <= j < s.take(i + 1).len() && #[trigger] s.take(i + 1)[j] == e;
            if j < i {
                assert(s.take(i)[j] == e);
            }
        }
        if s.take(i).contains(e) {
            let j = choose|j: int| 0 <= j < s.take(i).len() && #[trigger] s.take(i)[j] == e;
            assert(s.take(i + 1)[j] == e);
        }
        if e == s[i] {
            assert(s.take(i + 1)[i] == e);
        }
    }
}

/// The labels of the first `i + 1` entries of a row, from those of the first `i`.
pub proof fn lemma_take_row_has<K, V>(row: Seq<(K, V)>, i: int)
    requires
        0 <= i < row.len(),
    ensures
        forall|c: K| #[trigger] row_has(row.take(i + 1), c)
            <==> (c == row[i].0 || row_has(row.take(i), c)),
{
    assert forall|c: K| #[trigger] row_has(row.take(i + 1), c)
        <==> (c == row[i].0 || row_has(row.take(i), c)) by {
        if row_has(row.take(i + 1), c) {
            let j = choose|j: int| 0 <= j < row.take(i + 1).len()
                && (#[trigger] row.take(i + 1)[j]).0 == c;
            if j < i {
                assert(row.take(i)[j].0 == c);
            }
        }
        if row_has(row.take(i), c) {
            let j = choose|j: int| 0 <= j < row.take(i).len() && (#[trigger] row.take(i)[j]).0 == c;
            assert(row.take(i + 1)[j].0 == c);
        }
        if c == row[i].0 {
            assert(row.take(i + 1)[i].0 == c);
        }
    }
}

/// `k` is the length of the longest common prefix of `a` and `b`.
pub open spec fn is_common_prefix_len(a: Seq<char>, b: Seq<char>, k: nat) -> bool {
    &&& k <= a.len()
    &&& k <= b.len()
    &&& forall|i: int| 0 <= i < k ==> a[i] == b[i]
    &&& (k < a.len() && k < b.len()) ==> a[k as int] != b[k as int]
}

/// The length of the longest common prefix of `a` and `b`.
pub open spec fn common_prefix_len(a: Seq<char>, b: Seq<char>) -> nat {
    choose|k: nat| is_common_prefix_len(a, b, k)
}

/// The longest common prefix has exactly one length.
pub proof fn lemma_common_prefix_len_unique(a: Seq<char>, b: Seq<char>, k: nat)
    requires
        is_common_prefix_len(a, b, k),
    ensures
        common_prefix_len(a, b) == k,
{
    let j = common_prefix_len(a, b);
    assert(is_common_prefix_len(a, b, j));
    if j < k {
        assert(a[j as int] == b[j as int]);
    } else if k < j {
        assert(a[k as int] == b[k as int]);
    }
}

/// Two words have a longest common prefix.
pub proof fn lemma_common_prefix_len(a: Seq<char>, b: Seq<char>)
    ensures
        is_common_prefix_len(a, b, common_prefix_len(a, b)),
{
    lemma_common_prefix_from(a, b, 0);
}

/// Two words that agree on their first `i` labels have a longest common prefix.
proof fn lemma_common_prefix_from(a: Seq<char>, b: Seq<char>, i: nat)
    requires
        i <= a.len(),
        i <= b.len(),
        forall|j: int| 0 <= j < i ==> a[j] == b[j],
    ensures
        exists|k: nat| is_common_prefix_len(a, b, k),
    decreases a.len() - i,
{
    if i < a.len() && i < b.len() && a[i as int] == b[i as int] {
        lemma_common_prefix_from(a, b, i + 1);
    } else {
        assert(is_common_prefix_len(a, b, i));
    }
}

/// Returns the longest common prefix of `w1` and `w2`.
pub fn longest_common_prefix(w1: &Vec<char>, w2: &Vec<char>) -> (lcp: Vec<char>)
    ensures
        lcp@.len() == common_prefix_len(w1@, w2@),
        lcp@.len() <= w1@.len(),
        lcp@.len() <= w2@.len(),
        lcp@ == w1@.take(lcp@.len() as int),
        lcp@ == w2@.take(lcp@.len() as int),
{
    let mut lcp: Vec<char> = Vec::new();
    let mut i: usize = 0;
    while i < w1.len() && i < w2.len() && w1[i] == w2[i]
        invariant
            i <= w1.len(),
            i <= w2.len(),
            lcp@.len() == i,
            forall|j: int| 0 <= j < i ==> w1[j] == w2[j],
            lcp@ == w1@.take(i as int),
        decreases w1.len() - i,
    {
        lcp.push(w1[i]);
        i += 1;
        assert(lcp@ =~= w1@.take(i as int));
    }
    proof {
        lemma_common_prefix_len_unique(w1@, w2@, i as nat);
        assert(lcp@ =~= w2@.take(i as int));
    }
    lcp
}

} // verus!
