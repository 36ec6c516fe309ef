//! The alphabet, the signatures of states and the index that finds a state by
//! its signature.

use crate::model::SignatureView;
use crate::utils::{
    lemma_row_push, lemma_row_remove, lemma_row_update, lemma_row_value, row_distinct, row_find,
    row_has, row_map, row_value,
};
use std::collections::HashMap;
use vstd::prelude::*;

verus! {

broadcast use vstd::std_specs::hash::group_hash_axioms;

/// The set of labels seen so far.
pub struct Alphabet {
    letters: Vec<char>,
}

impl View for Alphabet {
    type V = Set<char>;

    closed spec fn view(&self) -> Set<char> {
        self.letters@.to_set()
    }
}

impl Alphabet {
    /// The empty alphabet.
    pub fn new() -> (a: Alphabet)
        ensures
            a@ == Set::<char>::empty(),
    {
        let a = Alphabet { letters: Vec::new() };
        assert(a@ =~= Set::<char>::empty());
        a
    }

    /// Whether `c` is a label of the alphabet.
    pub fn contains(&self, c: char) -> (r: bool)
        ensures
            r == self@.contains(c),
    {
        let mut i: usize = 0;
        while i < self.letters.len()
            invariant
                i <= self.letters.len(),
                forall|j: int| 0 <= j < i ==> self.letters[j] != c,
            decreases self.letters.len() - i,
        {
            if self.letters[i] == c {
                return true;
            }
            i += 1;
        }
        false
    }

    /// Adds `c` to the alphabet.
    pub fn insert(&mut self, c: char)
        ensures
            final(self)@ == old(self)@.insert(c),
    {
        if !self.contains(c) {
            self.letters.push(c);
            proof {
                let s = old(self).letters@;
                assert(self.letters@ == s.push(c));
                assert forall|d: char| self.letters@.contains(d) <==> (d == c || s.contains(d)) by {
                    if self.letters@.contains(d) {
                        let i = choose|i: int| 0 <= i < self.letters@.len()
                            && self.letters@[i] == d;
                        if i < s.len() {
                            assert(s[i] == d);
                        }
                    }
                    if s.contains(d) {
                        let i = choose|i: int| 0 <= i < s.len() && s[i] == d;
                        assert(self.letters@[i] == d);
                    }
                    if d == c {
                        assert(self.letters@[s.len() as int] == c);
                    }
                }
            }
        }
        assert(self@ =~= old(self)@.insert(c));
    }

    /// The labels of the alphabet, as a list.
    pub fn letters(&self) -> (r: &Vec<char>)
        ensures
            r@.to_set() == self@,
    {
        &self.letters
    }
}

/// The signature of a state: its final output, if it is final, and its
/// transitions as (label, (target, output)), each label once.
pub struct Signature {
    pub final_output: Option<usize>,
    pub transitions: Vec<(char, (usize, usize))>,
}

impl View for Signature {
    type V = SignatureView;

    open spec fn view(&self) -> SignatureView {
        SignatureView {
            final_output: self.final_output,
            transitions: row_map(self.transitions@),
        }
    }
}

impl Signature {
    /// No label occurs twice among the transitions.
    pub open spec fn wf(&self) -> bool {
        row_distinct(self.transitions@)
    }

    /// Whether two signatures are the same fingerprint, whatever the order in
    /// which they list their transitions.
    pub fn same(&self, other: &Signature) -> (r: bool)
        requires
            self.wf(),
            other.wf(),
        ensures
            r == (self@ == other@),
    {
        let finals_agree = match (self.final_output, other.final_output) {
            (Some(a), Some(b)) => a == b,
            (None, None) => true,
            _ => false,
        };
        if !finals_agree {
            return false;
        }
        let mut i: usize = 0;
        while i < self.transitions.len()
            invariant
                i <= self.transitions.len(),
                self.wf(),
                other.wf(),
                forall|j: int|
                    0 <= j < i ==> row_has(other.transitions@, (#[trigger] self.transitions[j]).0)
                        && row_value(other.transitions@, self.transitions[j].0)
                        == self.transitions[j].1,
            decreases self.transitions.len() - i,
        {
            let c = self.transitions[i].0;
            let v = self.transitions[i].1;
            proof {
                lemma_row_value(self.transitions@, i as int);
            }
            match row_find(&other.transitions, c) {
                Some(j) => {
                    proof {
                        lemma_row_value(other.transitions@, j as int);
                    }
                    let o = other.transitions[j].1;
                    if o.0 != v.0 || o.1 != v.1 {
                        assert(self@.transitions[c] != other@.transitions[c]);
                        return false;
                    }
                },
                None => {
                    assert(self@.transitions.contains_key(c));
                    assert(!other@.transitions.contains_key(c));
                    return false;
                },
            }
            i += 1;
        }
        let mut k: usize = 0;
        while k < other.transitions.len()
            invariant
                k <= other.transitions.len(),
                forall|j: int|
                    0 <= j < k ==> row_has(self.transitions@, (#[trigger] other.transitions[j]).0),
            decreases other.transitions.len() - k,
        {
            let c = other.transitions[k].0;
            match row_find(&self.transitions, c) {
                Some(_) => {},
                None => {
                    assert(other@.transitions.contains_key(c));
                    assert(!self@.transitions.contains_key(c));
                    return false;
                },
            }
            k += 1;
        }
        proof {
            assert forall|c: char| self@.transitions.contains_key(c)
                implies other@.transitions.contains_key(c)
                && other@.transitions[c] == self@.transitions[c] by {
                let j = choose|j: int| 0 <= j < self.transitions@.len()
                    && (#[trigger] self.transitions@[j]).0 == c;
                lemma_row_value(self.transitions@, j);
            }
            assert forall|c: char| other@.transitions.contains_key(c)
                implies self@.transitions.contains_key(c) by {
                let j = choose|j: int| 0 <= j < other.transitions@.len()
                    && (#[trigger] other.transitions@[j]).0 == c;
            }
            assert(self@.transitions =~= other@.transitions);
        }
        true
    }
}

/// The modulus of the hash of a signature.
pub const MODULUS: u64 = 1_000_000_007;

/// Two numbers mixed into one below the modulus.
pub open spec fn mix(a: u64, b: u64) -> u64 {
    (((a % MODULUS) * 31 + (b % MODULUS)) % (MODULUS as int)) as u64
}

/// Mixes two numbers into one below the modulus.
pub fn mix_of(a: u64, b: u64) -> (r: u64)
    ensures
        r == mix(a, b),
{
    ((a % MODULUS) * 31 + (b % MODULUS)) % MODULUS
}

/// The number that stands for a label.
pub open spec fn code(c: char) -> u64 {
    c as u64
}

/// `c` is the lowest of the labels.
pub open spec fn is_least_label(labels: Set<char>, c: char) -> bool {
    labels.contains(c) && forall|d: char| labels.contains(d) ==> code(c) <= code(d)
}

/// `c` is the highest of the labels.
pub open spec fn is_greatest_label(labels: Set<char>, c: char) -> bool {
    labels.contains(c) && forall|d: char| labels.contains(d) ==> code(d) <= code(c)
}

/// The lowest of the labels.
pub open spec fn least_label(labels: Set<char>) -> char {
    choose|c: char| is_least_label(labels, c)
}

/// The highest of the labels.
pub open spec fn greatest_label(labels: Set<char>) -> char {
    choose|c: char| is_greatest_label(labels, c)
}

/// The lowest of the labels is the one label that none is below, and the
/// highest the one that none is above.
pub proof fn lemma_extreme_labels(labels: Set<char>, lo: char, hi: char)
    requires
        is_least_label(labels, lo),
        is_greatest_label(labels, hi),
    ensures
        least_label(labels) == lo,
        greatest_label(labels) == hi,
{
    let l = least_label(labels);
    let h = greatest_label(labels);
    assert(is_least_label(labels, l));
    assert(is_greatest_label(labels, h));
    assert(code(l) == code(lo));
    assert(code(h) == code(hi));
}

/// The hash of a signature: its final output, the number of its transitions,
/// and its transitions on the lowest and on the highest label, mixed.
pub open spec fn spec_hash(v: SignatureView) -> u64 {
    let labels = v.transitions.dom();
    let head = mix(
        match v.final_output {
            Some(o) => mix(1, o as u64),
            None => 0,
        },
        labels.len() as u64,
    );
    if labels.len() == 0 {
        head
    } else {
        let lo = least_label(labels);
        let hi = greatest_label(labels);
        mix(
            mix(
                mix(mix(mix(mix(head, code(lo)), v.transitions[lo].0 as u64),
                    v.transitions[lo].1 as u64), code(hi)),
                v.transitions[hi].0 as u64,
            ),
            v.transitions[hi].1 as u64,
        )
    }
}

impl Signature {
    /// The hash of the signature. It is the same for two signatures that are the
    /// same fingerprint.
    pub fn hash_of(&self) -> (h: u64)
        requires
            self.wf(),
        ensures
            h == spec_hash(self@),
    {
        let n = self.transitions.len();
        let ghost labels = self@.transitions.dom();
        proof {
            crate::utils::lemma_row_labels(self.transitions@);
            assert(labels =~= Set::new(|c: char| row_has(self.transitions@, c)));
        }
        let head = mix_of(
            match self.final_output {
                Some(o) => mix_of(1, o as u64),
                None => 0,
            },
            n as u64,
        );
        if n == 0 {
            return head;
        }
        let mut lo: usize = 0;
        let mut hi: usize = 0;
        let mut i: usize = 1;
        while i < n
            invariant
                1 <= i <= n,
                n == self.transitions@.len(),
                lo < i,
                hi < i,
                forall|j: int| 0 <= j < i ==> code(self.transitions@[lo as int].0) <= code(
                    (#[trigger] self.transitions@[j]).0,
                ),
                forall|j: int| 0 <= j < i ==> code((#[trigger] self.transitions@[j]).0) <= code(
                    self.transitions@[hi as int].0,
                ),
            decreases n - i,
        {
            if (self.transitions[i].0 as u64) < (self.transitions[lo].0 as u64) {
                lo = i;
            }
            if (self.transitions[hi].0 as u64) < (self.transitions[i].0 as u64) {
                hi = i;
            }
            i += 1;
        }
        let low = self.transitions[lo];
        let high = self.transitions[hi];
        proof {
            lemma_row_value(self.transitions@, lo as int);
            lemma_row_value(self.transitions@, hi as int);
            assert(is_least_label(labels, low.0)) by {
                assert forall|d: char| labels.contains(d) implies code(low.0) <= code(d) by {
                    let j = choose|j: int| 0 <= j < self.transitions@.len()
                        && (#[trigger] self.transitions@[j]).0 == d;
                }
            }
            assert(is_greatest_label(labels, high.0)) by {
                assert forall|d: char| labels.contains(d) implies code(d) <= code(high.0) by {
                    let j = choose|j: int| 0 <= j < self.transitions@.len()
                        && (#[trigger] self.transitions@[j]).0 == d;
                }
            }
            lemma_extreme_labels(labels, low.0, high.0);
        }
        mix_of(
            mix_of(
                mix_of(
                    mix_of(mix_of(mix_of(head, low.0 as u64), low.1.0 as u64), low.1.1 as u64),
                    high.0 as u64,
                ),
                high.1.0 as u64,
            ),
            high.1.1 as u64,
        )
    }
}

/// The entries of a bucket with each signature replaced by its view.
pub open spec fn keyed(entries: Seq<(Signature, usize)>) -> Seq<(SignatureView, usize)> {
    entries.map_values(|e: (Signature, usize)| (e.0@, e.1))
}

/// Every bucket is non-empty, holds signatures with its hash only, and holds
/// no signature twice.
pub open spec fn buckets_inv(buckets: Map<u64, Vec<(Signature, usize)>>) -> bool {
    forall|h: u64| #[trigger]
        buckets.contains_key(h) ==> {
            &&& buckets[h]@.len() > 0
            &&& row_distinct(keyed(buckets[h]@))
            &&& forall|i: int|
                0 <= i < buckets[h]@.len() ==> (#[trigger] buckets[h]@[i]).0.wf() && spec_hash(
                    buckets[h]@[i].0@,
                ) == h
        }
}

/// The map from signatures to states that the buckets spell out.
pub open spec fn buckets_view(buckets: Map<u64, Vec<(Signature, usize)>>) -> Map<
    SignatureView,
    usize,
> {
    Map::new(
        |v: SignatureView|
            buckets.contains_key(spec_hash(v)) && row_has(keyed(buckets[spec_hash(v)]@), v),
        |v: SignatureView| row_value(keyed(buckets[spec_hash(v)]@), v),
    )
}

/// The states registered by signature, in buckets by the hash of the signature.
pub struct SignatureIndex {
    buckets: HashMap<u64, Vec<(Signature, usize)>>,
}

impl View for SignatureIndex {
    type V = Map<SignatureView, usize>;

    closed spec fn view(&self) -> Map<SignatureView, usize> {
        buckets_view(self.buckets@)
    }
}

/// Position of `signature` in a bucket, if it is there.
fn position(bucket: &Vec<(Signature, usize)>, signature: &Signature) -> (r: Option<usize>)
    requires
        signature.wf(),
        forall|i: int| 0 <= i < bucket@.len() ==> (#[trigger] bucket@[i]).0.wf(),
    ensures
        match r {
            Some(i) => i < bucket@.len() && keyed(bucket@)[i as int].0 == signature@,
            None => !row_has(keyed(bucket@), signature@),
        },
{
    let mut i: usize = 0;
    while i < bucket.len()
        invariant
            i <= bucket.len(),
            signature.wf(),
            forall|j: int| 0 <= j < bucket@.len() ==> (#[trigger] bucket@[j]).0.wf(),
            forall|j: int| 0 <= j < i ==> (#[trigger] keyed(bucket@)[j]).0 != signature@,
        decreases bucket.len() - i,
    {
        if bucket[i].0.same(signature) {
            return Some(i);
        }
        i += 1;
    }
    None
}

impl SignatureIndex {
    /// The representation is sound: no signature is stored twice, and each is
    /// stored in the bucket of its hash.
    pub closed spec fn wf(&self) -> bool {
        buckets_inv(self.buckets@)
    }

    /// The empty index.
    pub fn new() -> (x: SignatureIndex)
        ensures
            x.wf(),
            x@ == Map::<SignatureView, usize>::empty(),
    {
        let x = SignatureIndex { buckets: HashMap::new() };
        assert(x@ =~= Map::<SignatureView, usize>::empty());
        x
    }

    /// The empty index, with room for `capacity` signatures.
    pub fn with_capacity(capacity: usize) -> (x: SignatureIndex)
        ensures
            x.wf(),
            x@ == Map::<SignatureView, usize>::empty(),
    {
        let x = SignatureIndex { buckets: HashMap::with_capacity(capacity) };
        assert(x@ =~= Map::<SignatureView, usize>::empty());
        x
    }

    /// The buckets as stored: each signature once, with the state registered
    /// under it, in the bucket of its hash.
    pub fn buckets(&self) -> (r: &HashMap<u64, Vec<(Signature, usize)>>)
        ensures
            self.wf() ==> buckets_inv(r@),
            buckets_view(r@) == self@,
    {
        &self.buckets
    }

    /// The state registered under `signature`, if any.
    pub fn get(&self, signature: &Signature) -> (r: Option<usize>)
        requires
            self.wf(),
            signature.wf(),
        ensures
            r == (if self@.contains_key(signature@) {
                Some(self@[signature@])
            } else {
                None
            }),
    {
        let h = signature.hash_of();
        match self.buckets.get(&h) {
            Some(bucket) => {
                match position(bucket, signature) {
                    Some(i) => {
                        proof {
                            lemma_row_value(keyed(bucket@), i as int);
                        }
                        Some(bucket[i].1)
                    },
                    None => None,
                }
            },
            None => None,
        }
    }

    /// Registers `state` under `signature`, in place of what was registered there.
    pub fn insert(&mut self, signature: Signature, state: usize)
        requires
            old(self).wf(),
            signature.wf(),
        ensures
            final(self).wf(),
            final(self)@ == old(self)@.insert(signature@, state),
    {
        let ghost before = self.buckets@;
        let ghost key = signature@;
        let h = signature.hash_of();
        let mut bucket: Vec<(Signature, usize)> = match self.buckets.remove(&h) {
            Some(bucket) => bucket,
            None => Vec::new(),
        };
        let ghost row = keyed(bucket@);
        match position(&bucket, &signature) {
            Some(i) => {
                proof {
                    lemma_row_value(row, i as int);
                    lemma_row_update(row, i as int, state);
                }
                bucket.set(i, (signature, state));
                assert(keyed(bucket@) =~= row.update(i as int, (key, state)));
            },
            None => {
                proof {
                    lemma_row_push(row, key, state);
                }
                bucket.push((signature, state));
                assert(keyed(bucket@) =~= row.push((key, state)));
            },
        }
        let ghost new_row = keyed(bucket@);
        self.buckets.insert(h, bucket);
        proof {
            let target = buckets_view(before).insert(key, state);
            assert forall|v: SignatureView| self@.contains_key(v) <==> target.contains_key(v) by {
                if spec_hash(v) == h {
                    assert(row_has(new_row, v) <==> (v == key || row_has(row, v)));
                }
            }
            assert forall|v: SignatureView| self@.contains_key(v) implies self@[v] == target[v] by {
                if spec_hash(v) == h && v != key {
                    assert(row_has(row, v));
                }
            }
            assert(self@ =~= target);
        }
    }

    /// Removes what is registered under `signature`, if anything.
    pub fn remove(&mut self, signature: &Signature)
        requires
            old(self).wf(),
            signature.wf(),
        ensures
            final(self).wf(),
            final(self)@ == old(self)@.remove(signature@),
    {
        let ghost before = self.buckets@;
        let ghost key = signature@;
        let h = signature.hash_of();
        match self.buckets.remove(&h) {
            Some(mut bucket) => {
                let ghost row = keyed(bucket@);
                match position(&bucket, signature) {
                    Some(i) => {
                        proof {
                            lemma_row_remove(row, i as int);
                        }
                        bucket.remove(i);
                        assert(keyed(bucket@) =~= row.remove(i as int));
                    },
                    None => {},
                }
                let ghost new_row = keyed(bucket@);
                if bucket.len() > 0 {
                    self.buckets.insert(h, bucket);
                }
                proof {
                    let target = buckets_view(before).remove(key);
                    assert forall|v: SignatureView| self@.contains_key(v)
                        <==> target.contains_key(v) by {
                        if spec_hash(v) == h {
                            assert(row_has(new_row, v) <==> (v != key && row_has(row, v)));
                            if new_row.len() == 0 && row_has(new_row, v) {
                                let j = choose|j: int| 0 <= j < new_row.len()
                                    && (#[trigger] new_row[j]).0 == v;
                            }
                        }
                    }
                    assert forall|v: SignatureView| self@.contains_key(v)
                        implies self@[v] == target[v] by {
                        if spec_hash(v) == h {
                            assert(row_has(row, v));
                        }
                    }
                    assert(self@ =~= target);
                }
            },
            None => {
                assert(self@ =~= buckets_view(before).remove(key));
            },
        }
    }
}

} // verus!
