//! Deleting a word and pushing the outputs along the path back to the front.

use crate::insertion::has_row;
use crate::laws::{fewest_states, lemma_fewest_states, lemma_initial_output_least};
use crate::model::{lemma_run_empty, lemma_run_prefix, lemma_run_same_delta, lemma_run_step, Model};
use crate::proofs::canonical::lemma_canonicalise;
use crate::proofs::cutting::lemma_remove_entry_with_word;
use crate::removal::lemma_least_output;
use crate::states::{has_state, remove_state};
use crate::transducer::{chars_of, Transducer};
use crate::utils::{
    add_to_or_insert, lemma_row_push, lemma_row_value, lemma_take_row_has, row_distinct, row_has,
    row_value,
};
use vstd::prelude::*;

verus! {

broadcast use vstd::std_specs::hash::group_hash_axioms;

impl Transducer {
    /// Decreases all the outputs of a state by their minimum and returns the
    /// minimum.
    pub fn extract_min_from_state(&mut self, state: &usize) -> (min_output: usize)
        requires
            old(self).wf(),
        ensures
            final(self).wf(),
            min_output == old(self)@.least_output(*state),
            final(self)@ == old(self)@.extract_min_from_state(*state),
    {
        let q = *state;
        let ghost m = self@;
        let final_output: Option<usize> = match self.psi.get(&q) {
            Some(o) => Some(*o),
            None => None,
        };
        let mut least: Option<usize> = final_output;
        let mut row: Vec<(char, usize)> = Vec::new();
        match self.lambda.row(q) {
            Some(old_row) => {
                let mut i: usize = 0;
                while i < old_row.len()
                    invariant
                        i <= old_row.len(),
                        row_distinct(old_row@),
                        forall|c: char| row_has(old_row@, c) <==> m.lambda.contains_key((q, c)),
                        forall|c: char| row_has(old_row@, c)
                            ==> row_value(old_row@, c) == m.lambda[(q, c)],
                        final_output is Some
                            ==> least is Some && least.unwrap() <= final_output.unwrap(),
                        i > 0 ==> least is Some,
                        forall|j: int| 0 <= j < i ==> least.unwrap() <= (#[trigger] old_row@[j]).1,
                        least is Some ==> (final_output == least || exists|j: int|
                            0 <= j < i && (#[trigger] old_row@[j]).1 == least.unwrap()),
                        least is None ==> final_output is None,
                    decreases old_row.len() - i,
                {
                    let o = old_row[i].1;
                    least =
                    match least {
                        Some(v) => if o < v {
                            Some(o)
                        } else {
                            Some(v)
                        },
                        None => Some(o),
                    };
                    i += 1;
                }
                let v = match least {
                    Some(v) => v,
                    None => 0,
                };
                proof {
                    assert forall|c: char| #[trigger] m.lambda.contains_key((q, c))
                        implies v <= m.lambda[(q, c)] by {
                        assert(row_has(old_row@, c));
                        let j = choose|j: int| 0 <= j < old_row@.len()
                            && (#[trigger] old_row@[j]).0 == c;
                        lemma_row_value(old_row@, j);
                    }
                    if final_output != least {
                        let j = choose|j: int| 0 <= j < old_row@.len()
                            && (#[trigger] old_row@[j]).1 == v;
                        lemma_row_value(old_row@, j);
                        assert(m.lambda.contains_key((q, old_row@[j].0))
                            && m.lambda[(q, old_row@[j].0)] == v);
                    }
                    assert(m.is_least_output(q, v as nat));
                    lemma_least_output(m, q, v as nat);
                }
                let mut k: usize = 0;
                while k < old_row.len()
                    invariant
                        k <= old_row.len(),
                        v == m.least_output(q),
                        m.is_least_output(q, v as nat),
                        row_distinct(old_row@),
                        forall|c: char| row_has(old_row@, c) <==> m.lambda.contains_key((q, c)),
                        forall|c: char| row_has(old_row@, c)
                            ==> row_value(old_row@, c) == m.lambda[(q, c)],
                        row_distinct(row@),
                        forall|c: char| row_has(row@, c) <==> row_has(old_row@.take(k as int), c),
                        forall|c: char|
                            row_has(row@, c) ==> row_value(row@, c) == (m.lambda[(q,
                                c)] - v) as usize,
                    decreases old_row.len() - k,
                {
                    let c = old_row[k].0;
                    let o = old_row[k].1;
                    let ghost before = row@;
                    proof {
                        lemma_row_value(old_row@, k as int);
                        if row_has(old_row@.take(k as int), c) {
                            let j = choose|j: int|
                                0 <= j < old_row@.take(k as int).len() && (#[trigger] old_row@.take(
                                    k as int,
                                )[j]).0 == c;
                            assert(old_row@[j].0 != old_row@[k as int].0);
                        }
                        lemma_take_row_has(old_row@, k as int);
                        assert(m.lambda.contains_key((q, c)));
                        lemma_row_push(row@, c, (o - v) as usize);
                    }
                    row.push((c, o - v));
                    proof {
                        assert(row@ == before.push((c, (o - v) as usize)));
                        assert(!row_has(before, c));
                        assert forall|x: char| row_has(row@, x)
                            <==> row_has(old_row@.take(k + 1), x) by {
                            assert(row_has(row@, x) <==> (x == c || row_has(before, x)));
                        }
                        assert forall|x: char| row_has(row@, x)
                            implies row_value(row@, x) == (m.lambda[(q, x)] - v) as usize by {
                            if x != c {
                                assert(row_has(before, x));
                            }
                        }
                    }
                    k += 1;
                }
                assert(old_row@.take(k as int) =~= old_row@);
            },
            None => {
                let v = match least {
                    Some(v) => v,
                    None => 0,
                };
                proof {
                    assert(!has_row(m.lambda, q));
                    assert(m.is_least_output(q, v as nat));
                    lemma_least_output(m, q, v as nat);
                }
            },
        }
        let min_output = match least {
            Some(v) => v,
            None => 0,
        };
        self.lambda.set_row(q, row);
        match final_output {
            Some(o) => {
                self.psi.insert(q, o - min_output);
            },
            None => {},
        }
        proof {
            let t = m.extract_min_from_state(q);
            assert(self@.lambda =~= t.lambda);
            assert(self@.psi =~= t.psi);
        }
        min_output
    }

    /// Going backwards from a state along the transitions that enter it, finds
    /// the first state that is final or has more than one outgoing transition,
    /// and the label on which the way leaves it.
    pub fn find_prev_divergent_state(&self, state: &usize) -> (r: Option<(char, usize)>)
        requires
            self.wf(),
            self@.reached_privately(*state),
        ensures
            r == self@.prev_divergent_state(*state),
    {
        let ghost w = self@.private_word_to(*state);
        let ghost mut i: nat = w.len();
        let mut curr_state = *state;
        assert(w.take(w.len() as int) =~= w);
        loop
            invariant
                self.wf(),
                self@.private_word(w),
                i <= w.len(),
                curr_state == self@.state_after(w.take(i as int)),
                self@.prev_divergent_state(*state) == self@.prev_divergent(w, i),
            decreases i,
        {
            if curr_state == self.init_state {
                proof {
                    if i > 0 {
                        assert(self@.state_after(w.take(i as int)) != 0);
                    }
                }
                return None;
            }
            proof {
                if i == 0 {
                    lemma_run_empty(self@, 0);
                    assert(w.take(0) =~= Seq::<char>::empty());
                }
                assert(i > 0);
                assert(self@.sole_entry(
                    self@.state_after(w.take(i as int)),
                    w[i - 1],
                    self@.state_after(w.take(i - 1)),
                ));
                assert(self@.delta_inv.contains((curr_state, w[i - 1],
                    self@.state_after(w.take(i - 1)))));
            }
            match self.delta_inv.row(curr_state) {
                Some(row) => {
                    let entry = row[row.len() - 1];
                    proof {
                        assert(row@.contains(row@[row@.len() - 1]));
                        assert(self@.delta_inv.contains((curr_state, entry.0, entry.1)));
                    }
                    if self.is_state_divergent(&entry.1) {
                        return Some(entry);
                    }
                    if entry.1 == self.init_state {
                        return None;
                    }
                    curr_state = entry.1;
                    proof {
                        i = (i - 1) as nat;
                    }
                },
                None => {
                    return None;
                },
            }
        }
    }

    /// Makes the outputs along `min_except` canonical: takes the least output out
    /// at the end of the path and moves it up the path, state by state, into the
    /// initial output.
    ///
    /// The transducer must be sound; it is sound again, and the words of the
    /// dictionary keep their outputs. One that is not sound can still be made
    /// canonical where the path can be read and the sums fit.
    pub fn canonicalise_min_except(&mut self)
        requires
            old(self).wf(),
            old(self)@.can_canonicalise() || old(self)@.sound(),
        ensures
            final(self).wf(),
            final(self)@ == old(self)@.canonicalise_min_except(),
            old(self)@.sound() ==> {
                &&& final(self)@.sound()
                &&& forall|u: Seq<char>| #[trigger] final(self)@.accepts(u) == old(self)@.accepts(u)
                &&& forall|u: Seq<char>|
                    old(self)@.accepts(u)
                        ==> #[trigger] final(self)@.output(u) == old(self)@.output(u)
                &&& old(self)@.alive() && old(self)@.early_but(old(self)@.last_state())
                    ==> final(self)@.tidy()
            },
    {
        proof {
            if old(self)@.sound() {
                lemma_canonicalise(old(self)@);
            }
        }
        let path = self.state_sequence(&self.min_except);
        let n = self.min_except.len();
        let ghost m = self@;
        assert(m.min_except.take(n as int) =~= m.min_except);
        let mut carry = self.extract_min_from_state(&path[n]);
        let mut i: usize = n;
        let mut done = false;
        while i > 0 && !done
            invariant
                i <= n,
                n == m.min_except.len(),
                self.wf(),
                path@ == m.state_sequence(m.min_except),
                self@.delta == m.delta,
                self@.finality == m.finality,
                self@.min_except == m.min_except,
                self@.can_carry_up(i as nat, carry as nat),
                m.canonicalise_min_except() == self@.carry_up(i as nat, carry as nat),
                done ==> self@.iota + carry <= usize::MAX
                    && self@.carry_up(i as nat, carry as nat) == (Model {
                    iota: (self@.iota + carry) as usize,
                    ..self@
                }),
            decreases i, (if done { 0int } else { 1int }),
        {
            let s = path[i - 1];
            let c = self.min_except[i - 1];
            proof {
                lemma_run_same_delta(self@, m, 0, m.min_except.take(i - 1));
                assert(s == self@.path_state(i - 1));
            }
            if self.is_state_divergent(&s) {
                match self.lambda.get(s, c) {
                    Some(o) => {
                        add_to_or_insert(&mut self.lambda, s, c, o + carry);
                    },
                    None => {},
                }
                carry = self.extract_min_from_state(&s);
                i -= 1;
            } else if s == self.init_state {
                done = true;
            } else {
                i -= 1;
            }
        }
        self.iota = self.iota + carry;
    }

    /// Removes the entry with the given word from a minimal transducer.
    ///
    /// The word must be removable: an entry, not the empty word, and not the
    /// only entry, because a transducer cannot hold the empty dictionary.
    ///
    /// The transducer is minimal again; it accepts the words that it accepted,
    /// but the deleted one, and each of them keeps its output. Its greatest
    /// state exceeds the old one by no more than the length of the word. Where
    /// the outputs were canonical they are so again; then the initial output is
    /// not below the old one, and no consistent transducer of the same
    /// dictionary has fewer states.
    pub fn remove_entry_with_word(&mut self, word_raw: &str)
        requires
            old(self).wf(),
            old(self)@.minimal(),
            old(self)@.removable(word_raw@),
            old(self)@.max_state() + word_raw@.len() <= usize::MAX,
        ensures
            final(self).wf(),
            final(self)@ == old(self)@.remove_entry_with_word(word_raw@),
            final(self)@.minimal(),
            forall|u: Seq<char>| #[trigger]
                final(self)@.accepts(u) <==> (old(self)@.accepts(u) && u != word_raw@),
            forall|u: Seq<char>|
                final(self)@.accepts(u)
                    ==> #[trigger] final(self)@.output(u) == old(self)@.output(u),
            old(self)@.tidy() ==> final(self)@.tidy(),
            final(self)@.max_state() <= old(self)@.max_state() + word_raw@.len(),
            old(self)@.tidy() ==> fewest_states(final(self)@),
            old(self)@.tidy() ==> final(self)@.iota >= old(self)@.iota,
    {
        proof {
            lemma_remove_entry_with_word(old(self)@, word_raw@);
            if old(self)@.tidy() {
                let r = old(self)@.remove_entry_with_word(word_raw@);
                lemma_fewest_states(r);
                let least = lemma_initial_output_least(r);
                assert(r.output(least) == old(self)@.output(least));
            }
        }
        let word = chars_of(word_raw);
        let ghost m = self@;
        self.lay_path(&word);
        let t_w = self.state_sequence(&word);
        let n = word.len();
        let tn = t_w[n];
        let ghost opened = self@;
        assert(word@.take(n as int) =~= word@);
        let ends_here = match self.delta.row(tn) {
            Some(row) => {
                proof {
                    lemma_row_value(row@, 0);
                    assert(opened.delta.contains_key((tn, row@[0].0)));
                    assert(has_row(opened.delta, tn));
                }
                false
            },
            None => {
                assert(!has_row(opened.delta, tn));
                true
            },
        };
        if ends_here {
            match self.find_prev_divergent_state(&tn) {
                Some(found) => {
                    let stop = found.1;
                    let mut i: usize = n;
                    let mut going = true;
                    while going
                        invariant
                            i <= n,
                            t_w@.len() == n + 1,
                            self.wf(),
                            going ==> Model::can_delete_back(t_w@, i as nat, stop),
                            going ==> m.cut_branch(word@) == self@.delete_back(t_w@, i as nat,
                                stop),
                            !going ==> m.cut_branch(word@) == self@,
                        decreases i, (if going { 1int } else { 0int }),
                    {
                        if t_w[i] != stop {
                            self.delete_state(&t_w[i]);
                            self.min_except.pop();
                            i -= 1;
                        } else {
                            going = false;
                        }
                    }
                },
                None => {},
            }
        }
        remove_state(&mut self.finality, tn);
        self.psi.remove(&tn);
        self.canonicalise_min_except();
        self.reduce_to_epsilon();
    }

    /// Whether `word` can be deleted: whether it is a word of the dictionary, not
    /// the empty one, from which another word goes on or which another word
    /// leaves before its end.
    pub fn can_remove(&self, word: &str) -> (r: bool)
        requires
            self.wf(),
        ensures
            r == self@.removable(word@),
    {
        let w = chars_of(word);
        let n = w.len();
        if n == 0 {
            return false;
        }
        let mut state = self.init_state;
        let mut branches = false;
        let mut i: usize = 0;
        proof {
            lemma_run_empty(self@, 0);
            assert(w@.take(0) =~= Seq::<char>::empty());
        }
        while i < n
            invariant
                i <= n,
                n == w@.len(),
                w@ == word@,
                self.wf(),
                self@.run(0, w@.take(i as int)) == Some(state),
                branches == exists|p: int| 0 <= p < i && self@.branches_before(w@, p),
            decreases n - i,
        {
            let here = self.is_state_divergent(&state);
            proof {
                lemma_run_step(self@, 0, w@, i as int);
                assert(here == self@.branches_before(w@, i as int));
                assert((exists|p: int| 0 <= p < i + 1
                    && self@.branches_before(w@, p)) == (here || exists|p: int|
                    0 <= p < i && self@.branches_before(w@, p))) by {
                    if exists|p: int| 0 <= p < i + 1 && self@.branches_before(w@, p) {
                        let p = choose|p: int| 0 <= p < i + 1 && self@.branches_before(w@, p);
                        if p < i {
                            assert(0 <= p < i && self@.branches_before(w@, p));
                        }
                    }
                    if here {
                        assert(0 <= i < i + 1 && self@.branches_before(w@, i as int));
                    }
                    if exists|p: int| 0 <= p < i && self@.branches_before(w@, p) {
                        let p = choose|p: int| 0 <= p < i && self@.branches_before(w@, p);
                        assert(0 <= p < i + 1 && self@.branches_before(w@, p));
                    }
                }
            }
            if here {
                branches = true;
            }
            match self.delta.get(state, w[i]) {
                Some(q) => {
                    state = q;
                },
                None => {
                    proof {
                        if self@.reads(w@) {
                            lemma_run_prefix(self@, 0, w@, i + 1);
                        }
                    }
                    return false;
                },
            }
            i += 1;
        }
        assert(w@.take(n as int) =~= w@);
        let goes_on = match self.delta.row(state) {
            Some(row) => {
                proof {
                    lemma_row_value(row@, 0);
                    assert(self@.delta.contains_key((state, row@[0].0)));
                    assert(has_row(self@.delta, state));
                }
                true
            },
            None => {
                assert(!has_row(self@.delta, state));
                false
            },
        };
        proof {
            assert((exists|p: int| self@.branches_before(w@, p)) == branches) by {
                if exists|p: int| self@.branches_before(w@, p) {
                    let p = choose|p: int| self@.branches_before(w@, p);
                    assert(0 <= p < n && self@.branches_before(w@, p));
                }
                if branches {
                    let p = choose|p: int| 0 <= p < n && self@.branches_before(w@, p);
                    assert(self@.branches_before(w@, p));
                }
            }
        }
        has_state(&self.finality, state) && (goes_on || branches)
    }
}

} // verus!
