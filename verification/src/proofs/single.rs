//! The transducer of a single word.

use crate::model::{lemma_greatest, lemma_run_empty, lemma_run_last, lemma_run_step, Model};
use vstd::prelude::*;

verus! {

/// What the transducer of one word reads is a prefix of the word; it leads to
/// the state with the number of its length and emits nothing on the way.
pub proof fn lemma_single_reads(word: Seq<char>, out: usize, u: Seq<char>)
    requires
        word.len() <= usize::MAX,
        Model::single(word, out).reads(u),
    ensures
        u.len() <= word.len(),
        u == word.take(u.len() as int),
        Model::single(word, out).run(0, u) == Some(u.len() as usize),
        Model::single(word, out).weight(0, u) == 0,
    decreases u.len(),
{
    let m = Model::single(word, out);
    if u.len() == 0 {
        lemma_run_empty(m, 0);
        assert(u =~= Seq::<char>::empty());
        assert(word.take(0) =~= u);
    } else {
        lemma_run_last(m, 0, u);
        lemma_single_reads(word, out, u.drop_last());
        let i = u.len() - 1;
        assert(m.run(0, u.drop_last()) == Some(i as usize));
        assert(m.delta.contains_key((i as usize, u.last())));
        assert(m.lambda[(i as usize, u.last())] == 0);
        assert(word.take(i + 1) =~= word.take(i).push(word[i]));
        assert(u =~= u.drop_last().push(u.last()));
    }
}

/// The transducer of one word reads each prefix of the word.
pub proof fn lemma_single_path(word: Seq<char>, out: usize, i: int)
    requires
        word.len() <= usize::MAX,
        0 <= i <= word.len(),
    ensures
        Model::single(word, out).run(0, word.take(i)) == Some(i as usize),
    decreases i,
{
    let m = Model::single(word, out);
    if i == 0 {
        lemma_run_empty(m, 0);
        assert(word.take(0) =~= Seq::<char>::empty());
    } else {
        lemma_single_path(word, out, i - 1);
        lemma_run_step(m, 0, word, i - 1);
        assert(m.delta.contains_key(((i - 1) as usize, word[i - 1])));
    }
}

/// The transducer of one word is sound, with the path along the word; it
/// accepts the word and nothing else, and emits the given output for it.
pub proof fn lemma_single(word: Seq<char>, out: usize)
    requires
        word.len() <= usize::MAX,
    ensures
        Model::single(word, out).inv(),
        Model::single(word, out).min_except == word,
        Model::single(word, out).output(word) == out,
        forall|u: Seq<char>| #[trigger] Model::single(word, out).accepts(u) <==> u == word,
        Model::single(word, out).max_state() == word.len(),
{
    reveal(Model::consistent);
    reveal(Model::private_path);
    reveal(Model::index_exact);
    reveal(Model::fits);
    let m = Model::single(word, out);
    let n = word.len() as int;
    assert forall|key: (usize, char)| #[trigger] m.delta.contains_key(key)
        implies m.alphabet.contains(
        key.1,
    ) by {
        assert(word[key.0 as int] == key.1);
    }
    assert(m.consistent());
    lemma_single_path(word, out, n);
    assert(word.take(n) =~= word);
    assert forall|i: int| 0 <= i <= n implies #[trigger] m.path_state(i) == i as usize by {
        lemma_single_path(word, out, i);
    }
    assert(m.private_path()) by {
        assert forall|key: (usize, char), i: int|
            #![trigger m.delta.contains_key(key), m.path_state(i)]
            m.delta.contains_key(key) && 1 <= i <= m.min_except.len()
                && m.delta[key] == m.path_state(i) implies key
            == (m.state_after(m.min_except.take(i - 1)), m.min_except[i - 1]) by {
            assert(m.path_state(i) == i as usize);
            assert(m.path_state(i - 1) == (i - 1) as usize);
        }
    }
    assert(m.index_exact()) by {
        assert forall|q: usize| #[trigger] m.states.contains(q) && !m.on_path(q)
            implies m.registered(q) by {
            assert(m.path_state(q as int) == q);
        }
    }
    assert(m.fits()) by {
        assert forall|u: Seq<char>| #[trigger] m.reads(u) implies m.output(u) <= usize::MAX by {
            lemma_single_reads(word, out, u);
        }
    }
    lemma_single_reads(word, out, word);
    assert forall|u: Seq<char>| #[trigger] m.accepts(u) <==> u == word by {
        if m.reads(u) {
            lemma_single_reads(word, out, u);
            if u.len() == n {
                assert(word.take(n) =~= word);
            }
        }
    }
    lemma_greatest(m.states, n as usize);
}

} // verus!
