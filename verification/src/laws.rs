//! What holds of every sound transducer, stated for callers.

use crate::model::{lemma_run_empty, Model};
use crate::proofs::addition::lemma_reads_state;
use crate::proofs::cutting::{lemma_removable, lemma_remove_entry_with_word};
use crate::proofs::dictionary::{
    ascending, has_word, lemma_from_dictionary, lemma_total_len_grows, total_len,
};
use crate::proofs::earliest::{lemma_reduce_to_epsilon_tidy, lemma_single_tidy};
use crate::proofs::opening::lemma_add_entry_out_of_order;
use crate::proofs::paths::lemma_greatest_exists;
use crate::proofs::rooted::{lemma_reduce_to_epsilon, lemma_single_rooted};
use crate::proofs::single::lemma_single;
use crate::proofs::unique::{
    agree, isomorphic, lemma_reads_agree, lemma_same_image, lemma_split, lemma_unique,
    lemma_zero_path,
};
use crate::utils::labels_at;
use vstd::prelude::*;
use vstd::relations::injective_on;
use vstd::set_lib::{
    lemma_int_range, lemma_len_subset, lemma_map_size, lemma_map_size_bound,
    lemma_set_disjoint_lens, set_int_range,
};

verus! {

/// In a minimal transducer no two states have the same signature: there are as
/// many states as signatures, and the index holds each state under its own.
pub proof fn lemma_minimal_distinct(m: Model, x: usize, y: usize)
    requires
        m.minimal(),
        m.states.contains(x),
        m.states.contains(y),
        m.signature(x) == m.signature(y),
    ensures
        x == y,
        m.index.contains_key(m.signature(x)),
        m.index[m.signature(x)] == x,
{
    assert(m.registered(x));
    assert(m.registered(y));
}

/// In a transducer that is minimal except along its path, no two states off
/// the path have the same signature.
pub proof fn lemma_sound_distinct(m: Model, x: usize, y: usize)
    requires
        m.sound(),
        m.states.contains(x),
        m.states.contains(y),
        !m.on_path(x),
        !m.on_path(y),
        m.signature(x) == m.signature(y),
    ensures
        x == y,
{
    reveal(Model::index_exact);
    assert(m.registered(x));
    assert(m.registered(y));
}

/// In a consistent transducer the inverse relation holds exactly the
/// transitions: a transition from `source` on `c` is recorded as entering
/// `target` if and only if it exists and enters `target`.
pub proof fn lemma_inverse_exact(m: Model, target: usize, c: char, source: usize)
    requires
        m.consistent(),
    ensures
        m.delta_inv.contains((target, c, source))
            <==> (m.delta.contains_key((source, c)) && m.delta[(
            source,
            c,
        )] == target),
{
    reveal(Model::consistent);
    if m.delta.contains_key((source, c)) {
        assert(m.delta_inv.contains((m.delta[(source, c)], c, source)));
    }
}

/// In a consistent transducer transitions and outputs are defined together, and
/// the final outputs are those of the final states.
pub proof fn lemma_defined_together(m: Model, q: usize, c: char)
    requires
        m.consistent(),
    ensures
        m.delta.contains_key((q, c)) <==> m.lambda.contains_key((q, c)),
        m.psi.contains_key(q) <==> m.finality.contains(q),
        m.states.contains(0),
        m.delta.contains_key((q, c)) ==> m.delta[(q, c)] != 0 && m.states.contains(q)
            && m.states.contains(m.delta[(q, c)]),
{
    reveal(Model::consistent);
}

/// Inserting a new word into a minimal, tidy transducer and deleting it again
/// gives a minimal, tidy transducer that accepts the words that the first one
/// accepted and nothing else, and emits for each of them but the empty word
/// what the first one emitted.
pub proof fn lemma_insert_then_delete(m: Model, w: Seq<char>, out: usize)
    requires
        m.minimal(),
        m.tidy(),
        !m.accepts(w),
        w.len() > 0,
        exists|u: Seq<char>| m.accepts(u),
        m.max_state() + 2 * w.len() <= usize::MAX,
    ensures
        m.add_entry_out_of_order(w, out).removable(w),
        m.add_entry_out_of_order(w, out).remove_entry_with_word(w).minimal(),
        m.add_entry_out_of_order(w, out).remove_entry_with_word(w).tidy(),
        forall|u: Seq<char>| #[trigger]
            m.add_entry_out_of_order(w, out).remove_entry_with_word(w).accepts(u) <==> m.accepts(u),
        forall|u: Seq<char>|
            m.accepts(u) && u.len() > 0 ==> #[trigger] m.add_entry_out_of_order(
                w,
                out,
            ).remove_entry_with_word(w).output(u) == m.output(u),
{
    lemma_add_entry_out_of_order(m, w, out);
    let a = m.add_entry_out_of_order(w, out);
    let other = choose|u: Seq<char>| m.accepts(u);
    assert(a.accepts(other) && other != w) by {
        assert(a.accepts(other) <==> (m.accepts(other) || other == w));
    }
    assert(a.accepts(w)) by {
        assert(a.accepts(w) <==> (m.accepts(w) || w == w));
    }
    assert(a.has_other_word(w));
    lemma_removable(a, w);
    lemma_remove_entry_with_word(a, w);
    let r = a.remove_entry_with_word(w);
    assert forall|u: Seq<char>| #[trigger] r.accepts(u) <==> m.accepts(u) by {
        assert(r.accepts(u) <==> (a.accepts(u) && u != w));
        assert(a.accepts(u) <==> (m.accepts(u) || u == w));
    }
    assert forall|u: Seq<char>| m.accepts(u) && u.len() > 0
        implies #[trigger] r.output(u) == m.output(
        u,
    ) by {
        assert(r.accepts(u) <==> (a.accepts(u) && u != w));
        assert(a.accepts(u) <==> (m.accepts(u) || u == w));
        assert(a.output(u) == m.output(u));
    }
}

impl Model {
    /// The minimal transducer of the first `i` entries, inserted one after the
    /// other in the order in which they stand, whatever that order is.
    pub open spec fn built(entries: Seq<(Seq<char>, usize)>, i: nat) -> Model
        decreases i,
    {
        if i <= 1 {
            Model::single(entries[0].0, entries[0].1).reduce_to_epsilon()
        } else {
            Model::built(entries, (i - 1) as nat).add_entry_out_of_order(
                entries[i - 1].0,
                entries[i - 1].1,
            )
        }
    }
}

/// No word stands twice among the entries, and none is empty.
pub open spec fn distinct_words(entries: Seq<(Seq<char>, usize)>) -> bool {
    &&& forall|i: int| 0 <= i < entries.len() ==> (#[trigger] entries[i]).0.len() > 0
    &&& forall|i: int, j: int|
        0 <= i < j < entries.len() ==> (#[trigger] entries[i]).0 != (#[trigger] entries[j]).0
}

/// In whatever order the entries of a dictionary are inserted, the transducer is
/// minimal and tidy, accepts the words of the dictionary and nothing else, and
/// emits for each word the output of its entry. So any two orders of one
/// dictionary give transducers that accept the same words with the same
/// outputs.
pub proof fn lemma_built(entries: Seq<(Seq<char>, usize)>, i: nat)
    requires
        distinct_words(entries),
        1 <= i <= entries.len(),
        total_len(entries, entries.len()) <= usize::MAX,
    ensures
        Model::built(entries, i).minimal(),
        Model::built(entries, i).tidy(),
        Model::built(entries, i).max_state() <= total_len(entries, i),
        forall|u: Seq<char>| #[trigger] Model::built(entries, i).accepts(u)
            <==> has_word(entries, i, u),
        forall|j: int|
            0 <= j < i ==> Model::built(entries, i).output((#[trigger] entries[j]).0)
                == entries[j].1,
    decreases i,
{
    let r = Model::built(entries, i);
    lemma_total_len_grows(entries, i, entries.len());
    if i == 1 {
        let word = entries[0].0;
        let out = entries[0].1;
        let s = Model::single(word, out);
        lemma_single(word, out);
        lemma_single_rooted(word, out);
        lemma_single_tidy(word, out);
        lemma_reduce_to_epsilon(s);
        lemma_reduce_to_epsilon_tidy(s);
        assert forall|u: Seq<char>| #[trigger] r.accepts(u) <==> has_word(entries, i, u) by {
            assert(s.reads(u) == r.reads(u));
            assert(s.accepts(u) <==> u == word);
            if u == word {
                assert(entries[0].0 == u);
            }
        }
        assert(r.output(word) == out) by {
            assert(s.accepts(word) <==> word == word);
            assert(s.reads(word) == r.reads(word));
        }
    } else {
        lemma_built(entries, (i - 1) as nat);
        let m = Model::built(entries, (i - 1) as nat);
        let w = entries[i - 1].0;
        let out = entries[i - 1].1;
        assert(!m.accepts(w)) by {
            assert(m.accepts(w) <==> has_word(entries, (i - 1) as nat, w));
            if has_word(entries, (i - 1) as nat, w) {
                let j = choose|j: int| 0 <= j < i - 1 && (#[trigger] entries[j]).0 == w;
                assert(entries[j].0 != entries[i - 1].0);
            }
        }
        lemma_add_entry_out_of_order(m, w, out);
        assert forall|u: Seq<char>| #[trigger] r.accepts(u) <==> has_word(entries, i, u) by {
            assert(m.accepts(u) <==> has_word(entries, (i - 1) as nat, u));
            assert(r.accepts(u) <==> (m.accepts(u) || u == w));
            if has_word(entries, i, u) {
                let j = choose|j: int| 0 <= j < i && (#[trigger] entries[j]).0 == u;
                if j < i - 1 {
                    assert(has_word(entries, (i - 1) as nat, u));
                }
            }
            if has_word(entries, (i - 1) as nat, u) {
                let j = choose|j: int| 0 <= j < i - 1 && (#[trigger] entries[j]).0 == u;
                assert(entries[j].0 == u);
            }
            if u == w {
                assert(entries[i - 1].0 == u);
            }
        }
        assert forall|j: int| 0 <= j < i
            implies r.output((#[trigger] entries[j]).0) == entries[j].1 by {
            if j < i - 1 {
                assert(has_word(entries, (i - 1) as nat, entries[j].0));
                assert(m.accepts(entries[j].0));
                assert(entries[j].0 != entries[i - 1].0);
                assert(r.output(entries[j].0) == m.output(entries[j].0));
            }
        }
    }
}

/// Inserting a new word into a minimal, tidy transducer that does not accept
/// the empty word, and deleting it again, gives the transducer back, up to the
/// numbers of its states.
pub proof fn lemma_insert_then_delete_restores(m: Model, w: Seq<char>, out: usize)
    requires
        m.minimal(),
        m.tidy(),
        !m.accepts(w),
        w.len() > 0,
        exists|u: Seq<char>| m.accepts(u),
        !m.accepts(Seq::<char>::empty()),
        m.max_state() + 2 * w.len() <= usize::MAX,
    ensures
        isomorphic(m, m.add_entry_out_of_order(w, out).remove_entry_with_word(w)),
{
    lemma_insert_then_delete(m, w, out);
    let r = m.add_entry_out_of_order(w, out).remove_entry_with_word(w);
    assert forall|u: Seq<char>|
        #![trigger m.accepts(u)]
        #![trigger r.accepts(u)]
        m.accepts(u) == r.accepts(u) && (m.accepts(u) ==> m.output(u) == r.output(u)) by {
        assert(r.accepts(u) <==> m.accepts(u));
        if m.accepts(u) {
            if u.len() == 0 {
                assert(u =~= Seq::<char>::empty());
            }
            assert(r.output(u) == m.output(u));
        }
    }
    lemma_unique(m, r);
}

/// The two dictionaries hold the same entries.
pub open spec fn same_entries(a: Seq<(Seq<char>, usize)>, b: Seq<(Seq<char>, usize)>) -> bool {
    forall|x: (Seq<char>, usize)| a.contains(x) == b.contains(x)
}

/// In whatever two orders the entries of one dictionary are inserted, the two
/// transducers are the same up to the numbers of their states.
pub proof fn lemma_any_order(a: Seq<(Seq<char>, usize)>, b: Seq<(Seq<char>, usize)>)
    requires
        a.len() > 0,
        b.len() > 0,
        distinct_words(a),
        distinct_words(b),
        same_entries(a, b),
        total_len(a, a.len()) <= usize::MAX,
        total_len(b, b.len()) <= usize::MAX,
    ensures
        isomorphic(Model::built(a, a.len()), Model::built(b, b.len())),
{
    let x = Model::built(a, a.len());
    let y = Model::built(b, b.len());
    lemma_built(a, a.len());
    lemma_built(b, b.len());
    assert forall|u: Seq<char>|
        #![trigger x.accepts(u)]
        #![trigger y.accepts(u)]
        x.accepts(u) == y.accepts(u) && (x.accepts(u) ==> x.output(u) == y.output(u)) by {
        assert(x.accepts(u) <==> has_word(a, a.len(), u));
        assert(y.accepts(u) <==> has_word(b, b.len(), u));
        if has_word(a, a.len(), u) {
            let j = choose|j: int| 0 <= j < a.len() && (#[trigger] a[j]).0 == u;
            assert(a.contains(a[j]));
            assert(b.contains(a[j]));
            let i = choose|i: int| 0 <= i < b.len() && b[i] == a[j];
            assert(b[i].0 == u);
            assert(x.output(a[j].0) == a[j].1);
            assert(y.output(b[i].0) == b[i].1);
        }
        if has_word(b, b.len(), u) {
            let j = choose|j: int| 0 <= j < b.len() && (#[trigger] b[j]).0 == u;
            assert(b.contains(b[j]));
            assert(a.contains(b[j]));
            let i = choose|i: int| 0 <= i < a.len() && a[i] == b[j];
            assert(a[i].0 == u);
        }
    }
    lemma_unique(x, y);
}

/// The transducer of a dictionary built in ascending order is, up to the
/// numbers of its states, the one that inserting its entries in any other
/// order gives.
pub proof fn lemma_sorted_or_not(sorted: Seq<(Seq<char>, usize)>, other: Seq<(Seq<char>, usize)>)
    requires
        sorted.len() > 0,
        other.len() > 0,
        ascending(sorted),
        distinct_words(other),
        same_entries(sorted, other),
        total_len(sorted, sorted.len()) <= usize::MAX,
        total_len(other, other.len()) <= usize::MAX,
    ensures
        isomorphic(Model::from_dictionary(sorted), Model::built(other, other.len())),
{
    let x = Model::from_dictionary(sorted);
    let y = Model::built(other, other.len());
    lemma_from_dictionary(sorted);
    lemma_built(other, other.len());
    assert forall|u: Seq<char>|
        #![trigger x.accepts(u)]
        #![trigger y.accepts(u)]
        x.accepts(u) == y.accepts(u) && (x.accepts(u) ==> x.output(u) == y.output(u)) by {
        assert(x.accepts(u) <==> has_word(sorted, sorted.len(), u));
        assert(y.accepts(u) <==> has_word(other, other.len(), u));
        if has_word(sorted, sorted.len(), u) {
            let j = choose|j: int| 0 <= j < sorted.len() && (#[trigger] sorted[j]).0 == u;
            assert(sorted.contains(sorted[j]));
            assert(other.contains(sorted[j]));
            let i = choose|i: int| 0 <= i < other.len() && other[i] == sorted[j];
            assert(other[i].0 == u);
            assert(y.output(other[i].0) == other[i].1);
            assert(u.len() > 0);
            assert(x.output(sorted[j].0) == sorted[j].1);
        }
        if has_word(other, other.len(), u) {
            let j = choose|j: int| 0 <= j < other.len() && (#[trigger] other[j]).0 == u;
            assert(other.contains(other[j]));
            assert(sorted.contains(other[j]));
            let i = choose|i: int| 0 <= i < sorted.len() && sorted[i] == other[j];
            assert(sorted[i].0 == u);
        }
    }
    lemma_unique(x, y);
}

/// The initial output of a minimal, tidy transducer is the least output of its
/// words: one of them, which is returned, has it for its output, and none has
/// less.
pub proof fn lemma_initial_output_least(m: Model) -> (u: Seq<char>)
    requires
        m.minimal(),
        m.tidy(),
    ensures
        m.accepts(u),
        m.output(u) == m.iota,
        forall|v: Seq<char>| #[trigger] m.output(v) >= m.iota,
{
    reveal(Model::ranked);
    reveal(Model::consistent);
    let rank = choose|rank: spec_fn(usize) -> nat| m.ranks(rank);
    let e = Seq::<char>::empty();
    lemma_run_empty(m, 0);
    let u = lemma_zero_path(m, rank, 0);
    lemma_split(m, e, u);
    assert(e + u =~= u);
    u
}

/// Every set of machine words is finite.
pub proof fn lemma_states_finite(states: Set<usize>)
    ensures
        states.finite(),
{
    let numbers = set_int_range(0, usize::MAX + 1);
    lemma_int_range(0, usize::MAX + 1);
    let numbered = |i: int| i as usize;
    let all = numbers.map(numbered);
    lemma_map_size_bound(numbers, all, numbered);
    assert forall|q: usize| states.contains(q) implies all.contains(q) by {
        let i = q as int;
        assert(numbers.contains(i));
        assert(numbered(i) == q);
    }
    lemma_len_subset(states, all);
}

/// A word that leads from the initial state to `q`, if there is one.
pub open spec fn word_to(m: Model, q: usize) -> Seq<char> {
    choose|u: Seq<char>| m.run(0, u) == Some(q)
}

/// No consistent transducer that accepts the same words and emits the same
/// for them has fewer states.
pub open spec fn fewest_states(m: Model) -> bool {
    forall|b: Model| b.consistent() && #[trigger] agree(m, b) ==> m.states.len() <= b.states.len()
}

/// A minimal, tidy transducer has no more states than any consistent
/// transducer that accepts the same words and emits the same for them.
pub proof fn lemma_no_more_states(a: Model, b: Model)
    requires
        a.minimal(),
        a.tidy(),
        b.consistent(),
        agree(a, b),
    ensures
        a.states.finite(),
        b.states.finite(),
        a.states.len() <= b.states.len(),
{
    lemma_states_finite(a.states);
    lemma_states_finite(b.states);
    let to = |q: usize| b.state_after(word_to(a, q));
    let image = a.states.map(to);
    assert forall|q: usize| a.states.contains(q) implies a.run(0, word_to(a, q)) == Some(q) by {
        reveal(Model::accessible);
        assert(a.reachable(q));
    }
    assert(injective_on(to, a.states)) by {
        assert forall|x: usize, y: usize|
            a.states.contains(x) && a.states.contains(y) && #[trigger] to(x) == #[trigger] to(
                y,
            ) implies x == y by {
            lemma_same_image(a, b, word_to(a, x), word_to(a, y));
        }
    }
    lemma_map_size(a.states, image, to);
    assert forall|s: usize| image.contains(s) implies b.states.contains(s) by {
        let q = choose|q: usize| a.states.contains(q) && s == to(q);
        lemma_reads_agree(a, b, word_to(a, q));
        lemma_reads_state(b, word_to(a, q));
    }
    lemma_len_subset(image, b.states);
}

/// A minimal, tidy transducer has the fewest states.
pub proof fn lemma_fewest_states(m: Model)
    requires
        m.minimal(),
        m.tidy(),
    ensures
        fewest_states(m),
{
    assert forall|b: Model| b.consistent() && #[trigger] agree(m, b) implies m.states.len()
        <= b.states.len() by {
        lemma_no_more_states(m, b);
    }
}

/// There are no more characters than this.
pub open spec fn char_count() -> nat {
    0x110000
}

/// The number of a character.
pub open spec fn code(c: char) -> int {
    c as int
}

/// The character with the number `i`, if there is one.
pub open spec fn letter(i: int) -> char {
    i as char
}

/// The number of a character is below the number of characters, and the
/// character is the one with that number.
pub proof fn lemma_code(c: char)
    ensures
        0 <= code(c) < char_count(),
        letter(code(c)) == c,
{
}

/// A state has transitions on finitely many labels: on no more than there are
/// characters.
pub proof fn lemma_degree_bound(m: Model, q: usize)
    ensures
        labels_at(m.delta, q).finite(),
        m.out_degree(q) <= char_count(),
{
    let labels = labels_at(m.delta, q);
    let numbers = set_int_range(0, 0x110000);
    lemma_int_range(0, 0x110000);
    let lettered = |i: int| letter(i);
    let letters = numbers.map(lettered);
    lemma_map_size_bound(numbers, letters, lettered);
    assert forall|c: char| labels.contains(c) implies letters.contains(c) by {
        let i = code(c);
        lemma_code(c);
        assert(numbers.contains(i));
        assert(lettered(i) == c);
    }
    lemma_len_subset(labels, letters);
}

/// No more transitions leave the states below `q` than `q` times the number
/// of characters.
pub proof fn lemma_degrees_bound(m: Model, q: nat)
    ensures
        m.degrees_below(q) <= q * char_count(),
    decreases q,
{
    if q > 0 {
        lemma_degrees_bound(m, (q - 1) as nat);
        lemma_degree_bound(m, (q - 1) as usize);
    }
}

/// The number of transitions of a transducer is bounded by the number of its
/// states up to the greatest one, times the number of characters.
pub proof fn lemma_transition_bound(m: Model)
    ensures
        m.transition_count() <= (m.max_state() + 1) * char_count(),
{
    lemma_degrees_bound(m, m.max_state() as nat + 1);
}

/// The transitions that leave the states below `q`.
pub open spec fn transitions_below(m: Model, q: nat) -> Set<(usize, char)> {
    Set::new(|k: (usize, char)| m.delta.contains_key(k) && k.0 < q)
}

/// Finitely many transitions leave the states below `q`: as many as their
/// degrees add up to.
pub proof fn lemma_transitions_below(m: Model, q: nat)
    requires
        q <= usize::MAX + 1,
    ensures
        transitions_below(m, q).finite(),
        transitions_below(m, q).len() == m.degrees_below(q),
    decreases q,
{
    if q == 0 {
        assert(transitions_below(m, q) =~= Set::<(usize, char)>::empty());
    } else {
        lemma_transitions_below(m, (q - 1) as nat);
        let x = (q - 1) as usize;
        let labels = labels_at(m.delta, x);
        lemma_degree_bound(m, x);
        let pair = |c: char| (x, c);
        let piece = labels.map(pair);
        assert(injective_on(pair, labels));
        lemma_map_size(labels, piece, pair);
        let before = transitions_below(m, (q - 1) as nat);
        assert(before.disjoint(piece));
        lemma_set_disjoint_lens(before, piece);
        assert(transitions_below(m, q) =~= before + piece) by {
            assert forall|k: (usize, char)| transitions_below(m, q).contains(k) implies (before
                + piece).contains(k) by {
                if k.0 == x {
                    assert(labels.contains(k.1));
                    assert(pair(k.1) == k);
                }
            }
        }
    }
}

/// In a consistent transducer the number of transitions is the number of pairs
/// of a state and a label for which the transition function is defined.
pub proof fn lemma_transition_count(m: Model)
    requires
        m.consistent(),
    ensures
        m.delta.dom().finite(),
        m.delta.dom().len() == m.transition_count(),
{
    reveal(Model::consistent);
    lemma_greatest_exists(m.states, 0);
    let top = m.max_state() as nat + 1;
    lemma_transitions_below(m, top);
    assert(m.delta.dom() =~= transitions_below(m, top)) by {
        assert forall|k: (usize, char)| m.delta.dom().contains(k)
            implies transitions_below(m, top).contains(
            k,
        ) by {
            assert(m.delta.contains_key(k));
            assert(m.states.contains(k.0));
        }
    }
}

} // verus!
