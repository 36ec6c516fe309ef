//! The transducer of a dictionary whose entries stand in ascending order.

use crate::insertion::lower;
use crate::model::{lemma_reduce_by_iota, lemma_run_empty, Model};
use crate::proofs::addition::{
    lemma_add_entry_in_order, lemma_frontier_insertable, lemma_frontier_kept, lemma_single_frontier,
    word_less,
};
use crate::proofs::earliest::{
    lemma_add_entry_in_order_tidy, lemma_reduce_to_epsilon_tidy, lemma_single_tidy,
};
use crate::proofs::rooted::{
    lemma_add_entry_in_order_rooted, lemma_reduce_to_epsilon, lemma_single_rooted,
};
use crate::proofs::single::lemma_single;
use vstd::prelude::*;

verus! {

/// The word of the entry at `i` comes after the word of the entry before it.
pub open spec fn follows(entries: Seq<(Seq<char>, usize)>, i: int) -> bool {
    word_less(entries[i - 1].0, entries[i].0)
}

/// Each entry but the first comes after the one before it.
pub open spec fn ascending(entries: Seq<(Seq<char>, usize)>) -> bool {
    forall|i: int| 1 <= i < entries.len() ==> #[trigger] follows(entries, i)
}

/// The least output among the first `i` entries.
pub open spec fn least_recorded(entries: Seq<(Seq<char>, usize)>, i: nat) -> nat
    decreases i,
{
    if i <= 1 {
        entries[0].1 as nat
    } else {
        lower(least_recorded(entries, (i - 1) as nat), entries[i - 1].1 as nat)
    }
}

/// The number of labels in the first `i` words.
pub open spec fn total_len(entries: Seq<(Seq<char>, usize)>, i: nat) -> nat
    decreases i,
{
    if i == 0 {
        0
    } else {
        total_len(entries, (i - 1) as nat) + entries[i - 1].0.len()
    }
}

/// `u` is one of the first `i` words.
pub open spec fn has_word(entries: Seq<(Seq<char>, usize)>, i: nat, u: Seq<char>) -> bool {
    exists|j: int| 0 <= j < i && (#[trigger] entries[j]).0 == u
}

/// The first words have no more labels than all the words.
pub proof fn lemma_total_len_grows(entries: Seq<(Seq<char>, usize)>, i: nat, j: nat)
    requires
        i <= j,
    ensures
        total_len(entries, i) <= total_len(entries, j),
    decreases j,
{
    if i < j {
        lemma_total_len_grows(entries, i, (j - 1) as nat);
    }
}

/// The first `i` entries of an ascending dictionary can be inserted one after
/// the other, and give a sound transducer that accepts their words and nothing
/// else, and emits for each word but the empty one the output of its entry. The
/// initial output is the least output of these entries, and it is what the
/// empty word has for its output where it is a word of the dictionary.
pub proof fn lemma_from_entries(entries: Seq<(Seq<char>, usize)>, i: nat)
    requires
        ascending(entries),
        1 <= i <= entries.len(),
        total_len(entries, entries.len()) <= usize::MAX,
    ensures
        Model::can_insert_entries(entries, i),
        Model::from_entries(entries, i).sound(),
        Model::from_entries(entries, i).frontier(),
        Model::from_entries(entries, i).tidy(),
        Model::from_entries(entries, i).min_except == entries[i - 1].0,
        Model::from_entries(entries, i).max_state() <= total_len(entries, i),
        forall|u: Seq<char>| #[trigger]
            Model::from_entries(entries, i).accepts(u) <==> has_word(entries, i, u),
        forall|j: int|
            0 <= j < i && (#[trigger] entries[j]).0.len() > 0
                ==> Model::from_entries(entries, i).output(
                entries[j].0,
            ) == entries[j].1,
        Model::from_entries(entries, i).iota == least_recorded(entries, i),
        entries[0].0.len() == 0 ==> Model::from_entries(entries, i).output(Seq::empty())
            == least_recorded(entries, i),
    decreases i,
{
    let r = Model::from_entries(entries, i);
    lemma_total_len_grows(entries, i, entries.len());
    if entries[0].0.len() == 0 {
        assert(entries[0].0 =~= Seq::<char>::empty());
    }
    if i == 1 {
        let word = entries[0].0;
        let out = entries[0].1;
        lemma_single(word, out);
        lemma_single_rooted(word, out);
        lemma_single_tidy(word, out);
        lemma_single_frontier(word, out);
        if word.len() == 0 {
            lemma_run_empty(r, 0);
        }
        assert forall|u: Seq<char>| #[trigger] r.accepts(u) <==> has_word(entries, i, u) by {
            if u == word {
                assert(entries[0].0 == u);
            }
        }
    } else {
        lemma_from_entries(entries, (i - 1) as nat);
        let m = Model::from_entries(entries, (i - 1) as nat);
        let w = entries[i - 1].0;
        let out = entries[i - 1].1;
        assert(follows(entries, i - 1));
        lemma_frontier_insertable(m, w);
        crate::utils::lemma_common_prefix_len(m.min_except, w);
        lemma_add_entry_in_order(m, w, out);
        lemma_add_entry_in_order_rooted(m, w, out);
        lemma_add_entry_in_order_tidy(m, w, out);
        lemma_frontier_kept(m, w, out);
        assert forall|u: Seq<char>| #[trigger] r.accepts(u) <==> has_word(entries, i, u) by {
            assert(m.accepts(u) <==> has_word(entries, (i - 1) as nat, u));
            if has_word(entries, i, u) {
                let j = choose|j: int| 0 <= j < i && (#[trigger] entries[j]).0 == u;
                if j < i - 1 {
                    assert(has_word(entries, (i - 1) as nat, u));
                }
            }
            if has_word(entries, (i - 1) as nat, u) {
                let j = choose|j: int| 0 <= j < i - 1 && (#[trigger] entries[j]).0 == u;
                assert(entries[j].0 == u);
            }
            if u == w {
                assert(entries[i - 1].0 == u);
            }
        }
        assert forall|j: int| 0 <= j < i && (#[trigger] entries[j]).0.len() > 0 implies r.output(
            entries[j].0,
        ) == entries[j].1 by {
            if j < i - 1 {
                assert(has_word(entries, (i - 1) as nat, entries[j].0));
                assert(m.accepts(entries[j].0));
            }
        }
        if entries[0].0.len() == 0 {
            assert(has_word(entries, (i - 1) as nat, entries[0].0));
            assert(m.accepts(Seq::empty()));
        }
    }
}

/// An ascending dictionary can be built, and its transducer is minimal, accepts
/// the words of the dictionary and nothing else, and emits for each word but
/// the empty one the output of its entry. The initial output is the least
/// output of the entries, and it is what the empty word has for its output
/// where it is a word of the dictionary.
pub proof fn lemma_from_dictionary(entries: Seq<(Seq<char>, usize)>)
    requires
        entries.len() > 0,
        ascending(entries),
        total_len(entries, entries.len()) <= usize::MAX,
    ensures
        Model::can_build(entries),
        Model::from_dictionary(entries).minimal(),
        forall|u: Seq<char>| #[trigger]
            Model::from_dictionary(entries).accepts(u) <==> has_word(entries, entries.len(), u),
        forall|j: int|
            0 <= j < entries.len() && (#[trigger] entries[j]).0.len() > 0
                ==> Model::from_dictionary(
                entries,
            ).output(entries[j].0) == entries[j].1,
        Model::from_dictionary(entries).max_state() <= total_len(entries, entries.len()),
        Model::from_dictionary(entries).tidy(),
        Model::from_dictionary(entries).iota == least_recorded(entries, entries.len()),
        entries[0].0.len() == 0 ==> Model::from_dictionary(entries).output(Seq::empty())
            == least_recorded(entries, entries.len()),
{
    lemma_from_entries(entries, entries.len());
    let m = Model::from_entries(entries, entries.len());
    let r = Model::from_dictionary(entries);
    lemma_reduce_to_epsilon(m);
    lemma_reduce_to_epsilon_tidy(m);
    lemma_reduce_by_iota(m, m.min_except.len());
    if entries[0].0.len() == 0 {
        let e = Seq::<char>::empty();
        assert(entries[0].0 =~= e);
        assert(has_word(entries, entries.len(), e));
        assert(m.accepts(e));
        assert(m.reads(e) == r.reads(e));
    }
    assert forall|u: Seq<char>| #[trigger] r.accepts(u)
        <==> has_word(entries, entries.len(), u) by {
        assert(m.reads(u) == r.reads(u));
        assert(m.accepts(u) <==> has_word(entries, entries.len(), u));
    }
    assert forall|j: int| 0 <= j < entries.len() && (#[trigger] entries[j]).0.len() > 0
        implies r.output(
        entries[j].0,
    ) == entries[j].1 by {
        assert(has_word(entries, entries.len(), entries[j].0));
        assert(m.accepts(entries[j].0));
        assert(m.reads(entries[j].0) == r.reads(entries[j].0));
    }
}

} // verus!
