//! Inserting a word whose position among the entries so far is known.

use crate::insertion::{
    chain_state, entries_view, has_row, lemma_add_chain_iota, lemma_can_increase_fewer,
    lemma_can_insert_fewer, lemma_can_push_fewer, lemma_push_outputs_frame,
    lemma_readable_len_unique, lower,
};
use crate::laws::{fewest_states, lemma_fewest_states};
use crate::model::{
    is_greatest, lemma_greatest, lemma_reduce_by_iota, lemma_reduce_by_min_except, lemma_run_empty,
    lemma_run_prefix, lemma_run_step, Model,
};
use crate::proofs::addition::{
    in_order, lemma_add_entry_in_order, lemma_frontier_kept, word_less,
};
use crate::proofs::dictionary::{
    ascending, has_word, least_recorded, lemma_from_dictionary, total_len,
};
use crate::proofs::earliest::{lemma_add_entry_in_order_tidy, lemma_increase_along_tidy};
use crate::proofs::opening::{lemma_add_entry_out_of_order, lemma_increase_along};
use crate::proofs::rooted::lemma_add_entry_in_order_rooted;
use crate::states::{greatest_state, has_state, insert_state};
use crate::transducer::{chars_of, Transducer};
use crate::utils::{
    add_to_or_insert, common_prefix_len, copy_row, lemma_row_push, lemma_row_value,
    lemma_take_row_has, longest_common_prefix, row_distinct, row_has, row_value,
};
use crate::wellformed::equivalent;
use vstd::prelude::*;
use vstd::slice::slice_subrange;

verus! {

broadcast use vstd::std_specs::hash::group_hash_axioms;

/// The lower of two numbers.
pub fn lower_of(a: usize, b: usize) -> (r: usize)
    ensures
        r == lower(a as nat, b as nat),
{
    if a <= b {
        a
    } else {
        b
    }
}

impl Transducer {
    /// What the transducer has emitted after each prefix of `w`: the initial
    /// output first.
    pub fn prefix_outputs(&self, w: &Vec<char>) -> (sums: Vec<usize>)
        requires
            self.wf(),
            self@.reads(w@),
            self@.has_outputs_along(w@),
            self@.prefix_output(w@) <= usize::MAX,
        ensures
            sums@.len() == w@.len() + 1,
            forall|i: int| 0 <= i <= w@.len()
                ==> sums@[i] == self@.prefix_output(#[trigger] w@.take(i)),
    {
        let mut sums: Vec<usize> = Vec::new();
        let mut state = self.init_state;
        let mut sum = self.iota;
        sums.push(sum);
        let mut i: usize = 0;
        proof {
            lemma_run_empty(self@, 0);
            assert(w@.take(0) =~= Seq::<char>::empty());
        }
        while i < w.len()
            invariant
                i <= w.len(),
                self.wf(),
                self@.reads(w@),
                self@.has_outputs_along(w@),
                self@.prefix_output(w@) <= usize::MAX,
                self@.run(0, w@.take(i as int)) == Some(state),
                sum == self@.prefix_output(w@.take(i as int)),
                sums@.len() == i + 1,
                forall|j: int| 0 <= j <= i
                    ==> sums@[j] == self@.prefix_output(#[trigger] w@.take(j)),
            decreases w.len() - i,
        {
            proof {
                lemma_run_step(self@, 0, w@, i as int);
                lemma_run_prefix(self@, 0, w@, i + 1);
                assert(self@.lambda.contains_key((self@.state_after(w@.take(i as int)),
                    w@[i as int])));
            }
            match self.lambda.get(state, w[i]) {
                Some(o) => {
                    sum = sum + o;
                },
                None => {},
            }
            match self.delta.get(state, w[i]) {
                Some(q) => {
                    state = q;
                },
                None => {},
            }
            sums.push(sum);
            i += 1;
        }
        sums
    }

    /// The lower of `beta` and what the transducer has emitted after the first
    /// `i` labels of `min_except`.
    pub fn lambda_i(&self, i: usize, beta: usize) -> (r: usize)
        requires
            self.wf(),
            i <= self@.min_except.len(),
            self@.reads(self@.min_except),
            self@.has_outputs_along(self@.min_except),
            self@.prefix_output(self@.min_except) <= usize::MAX,
        ensures
            r == lower(self@.prefix_output(self@.min_except.take(i as int)), beta as nat),
    {
        let sums = self.prefix_outputs(&self.min_except);
        lower_of(sums[i], beta)
    }

    /// Rewrites the outputs at `q` for a path that reaches `q` with `sum` emitted
    /// and is to emit no more than `output` there.
    pub fn compensate(
        &mut self,
        q: usize,
        sum: usize,
        output: usize,
        step: Option<(char, usize)>,
        adjust_final: bool,
    )
        requires
            old(self).wf(),
            old(self)@.can_compensate(q, sum as nat, adjust_final),
        ensures
            final(self).wf(),
            final(self)@ == old(self)@.compensate(q, sum as nat, output as nat, step, adjust_final),
    {
        let low = lower_of(sum, output);
        let ghost m = self@;
        let mut row: Vec<(char, usize)> = Vec::new();
        match self.lambda.row(q) {
            Some(old_row) => {
                let mut i: usize = 0;
                while i < old_row.len()
                    invariant
                        i <= old_row.len(),
                        low == lower(sum as nat, output as nat),
                        m.can_compensate(q, sum as nat, adjust_final),
                        row_distinct(old_row@),
                        forall|c: char| row_has(old_row@, c) <==> m.lambda.contains_key((q, c)),
                        forall|c: char| row_has(old_row@, c)
                            ==> row_value(old_row@, c) == m.lambda[(q, c)],
                        row_distinct(row@),
                        forall|c: char| row_has(row@, c) <==> row_has(old_row@.take(i as int), c),
                        forall|c: char|
                            row_has(row@, c) ==> row_value(row@, c) == m.compensate(
                                q,
                                sum as nat,
                                output as nat,
                                step,
                                adjust_final,
                            ).lambda[(q, c)],
                    decreases old_row.len() - i,
                {
                    let c = old_row[i].0;
                    let o = old_row[i].1;
                    let ghost before = row@;
                    proof {
                        lemma_row_value(old_row@, i as int);
                        if row_has(old_row@.take(i as int), c) {
                            let j = choose|j: int|
                                0 <= j < old_row@.take(i as int).len() && (#[trigger] old_row@.take(
                                    i as int,
                                )[j]).0 == c;
                            assert(old_row@[j].0 != old_row@[i as int].0);
                        }
                        lemma_take_row_has(old_row@, i as int);
                        assert(m.lambda.contains_key((q, c)));
                    }
                    let v = match step {
                        Some((a, x)) => if a == c {
                            x
                        } else {
                            sum + o - low
                        },
                        None => sum + o - low,
                    };
                    proof {
                        lemma_row_push(row@, c, v);
                    }
                    row.push((c, v));
                    proof {
                        assert(row@ == before.push((c, v)));
                        assert(!row_has(old_row@.take(i as int), c));
                        assert(!row_has(before, c));
                        assert(row_distinct(before));
                        assert forall|x: char| row_has(row@, x)
                            <==> row_has(old_row@.take(i + 1), x) by {
                            assert(row_has(row@, x) <==> (x == c || row_has(before, x)));
                        }
                        assert forall|x: char| row_has(row@, x)
                            implies row_value(row@, x) == m.compensate(
                            q,
                            sum as nat,
                            output as nat,
                            step,
                            adjust_final,
                        ).lambda[(q, x)] by {
                            if x != c {
                                assert(row_has(before, x));
                            }
                        }
                    }
                    i += 1;
                }
                assert(old_row@.take(i as int) =~= old_row@);
            },
            None => {},
        }
        self.lambda.set_row(q, row);
        if adjust_final && has_state(&self.finality, q) {
            let old_final = match self.psi.get(&q) {
                Some(o) => *o,
                None => 0,
            };
            self.psi.insert(q, sum + old_final - low);
        }
        proof {
            let t = m.compensate(q, sum as nat, output as nat, step, adjust_final);
            assert(self@.lambda =~= t.lambda);
            assert(self@.psi =~= t.psi);
        }
    }

    /// Adds a new entry to the transducer that comes after the entries added so
    /// far: `min_except` is reduced to its common prefix with the word, the
    /// outputs along that prefix are lowered to what `output` allows, and the
    /// rest of the word gets new states.
    ///
    /// The transducer must be sound. The word must be in order: it comes after
    /// `min_except`, the word inserted last, in the order of a dictionary, or
    /// `min_except` is a prefix of it. And it must be insertable: where it leaves
    /// the words read so far, no transition on its next label may exist yet,
    /// which is so wherever nothing that the transducer reads comes after
    /// `min_except`.
    ///
    /// The transducer then accepts the word, with the given output, beside the
    /// words that it accepted, and each of these but the empty word keeps its
    /// output. The initial output becomes the lower of itself and the given
    /// output, and the output of the empty word, where it is a word of the
    /// dictionary, falls by as much as the initial output.
    pub fn add_entry_in_order(&mut self, word: &str, output: usize)
        requires
            old(self).wf(),
            old(self)@.sound(),
            in_order(old(self)@.min_except, word@),
            old(self)@.insertable(word@),
            old(self)@.max_state() + (word@.len() - common_prefix_len(old(self)@.min_except, word@))
                <= usize::MAX,
        ensures
            final(self).wf(),
            final(self)@ == old(self)@.add_entry_in_order(word@, output),
            final(self)@.sound(),
            final(self)@.min_except == word@,
            final(self)@.output(word@) == output,
            forall|u: Seq<char>| #[trigger]
                final(self)@.accepts(u) <==> (old(self)@.accepts(u) || u == word@),
            forall|u: Seq<char>|
                old(self)@.accepts(u) && u != word@ && u.len() > 0
                    ==> #[trigger] final(self)@.output(u)
                    == old(self)@.output(u),
            old(self)@.frontier() && word_less(old(self)@.min_except, word@)
                ==> final(self)@.frontier(),
            old(self)@.tidy() && !old(self)@.accepts(word@) ==> final(self)@.tidy(),
            final(self)@.max_state() <= old(self)@.max_state() + (word@.len() - common_prefix_len(
                old(self)@.min_except,
                word@,
            )),
            final(self)@.iota == lower(old(self)@.iota as nat, output as nat),
            old(self)@.accepts(Seq::empty()) && word@.len() > 0
                ==> final(self)@.output(Seq::empty()) == old(self)@.output(Seq::empty())
                - old(self)@.iota + final(self)@.iota,
    {
        proof {
            lemma_add_entry_in_order(old(self)@, word@, output);
            lemma_add_entry_in_order_rooted(old(self)@, word@, output);
            if old(self)@.tidy() && !old(self)@.accepts(word@) {
                lemma_add_entry_in_order_tidy(old(self)@, word@, output);
            }
            if old(self)@.frontier() && word_less(old(self)@.min_except, word@) {
                lemma_frontier_kept(old(self)@, word@, output);
            }
        }
        self.add_entry_in_order_raw(word, output);
    }

    /// Inserts `word` with `output` where every step of the insertion can be made.
    fn add_entry_in_order_raw(&mut self, word: &str, output: usize)
        requires
            old(self).wf(),
            old(self)@.can_add(word@, output),
        ensures
            final(self).wf(),
            final(self)@ == old(self)@.add_entry_in_order(word@, output),
    {
        let word: Vec<char> = chars_of(word);
        let n = word.len();
        let k = longest_common_prefix(&self.min_except, &word).len();
        let ghost m = self@;
        proof {
            lemma_reduce_by_min_except(m, (m.min_except.len() - k) as nat);
            assert(m.min_except.take(k as int) =~= word@.take(k as int));
        }
        self.reduce_except_by_k(self.min_except.len() - k);
        let ghost base = self@;
        let path = self.state_sequence(&self.min_except);
        let sums = self.prefix_outputs(&self.min_except);
        let tk = path[k];
        proof {
            assert(word@.take(k as int).take(k as int) =~= word@.take(k as int));
            assert forall|i: int| 0 <= i <= k
                implies #[trigger] path@[i] == base.state_after(word@.take(i))
                && sums@[i] == base.prefix_output(word@.take(i)) by {
                assert(word@.take(k as int).take(i) =~= word@.take(i));
            }
        }
        let mut p: usize = 0;
        while p < path.len()
            invariant
                p <= path.len(),
                path@.len() == k + 1,
                sums@.len() == k + 1,
                k <= word@.len(),
                self.wf(),
                base.can_push_outputs(base, word@, k as nat, output as nat, (k + 1) as nat),
                base.reads(word@.take(k as int)),
                self@ == base.push_outputs(base, word@, k as nat, output as nat, p as nat),
                forall|i: int| 0 <= i <= k
                    ==> #[trigger] path@[i] == base.state_after(word@.take(i))
                    && sums@[i] == base.prefix_output(word@.take(i)),
            decreases path.len() - p,
        {
            proof {
                lemma_can_push_fewer(base, base, word@, k as nat, output as nat, (k + 1) as nat,
                    (p + 1) as nat);
                if p < k {
                    lemma_run_step(base, 0, word@, p as int);
                    assert(path@[p as int] == base.state_after(word@.take(p as int)));
                    assert(path@[p + 1] == base.state_after(word@.take(p + 1)));
                    assert(sums@[p + 1] >= sums@[p as int]);
                }
                assert(path@[p as int] == base.state_after(word@.take(p as int)));
            }
            let step = if p < k {
                Some((word[p], lower_of(sums[p + 1], output) - lower_of(sums[p], output)))
            } else {
                None
            };
            assert(step == base.path_step(word@, k as nat, output as nat, p as nat));
            self.compensate(path[p], sums[p], output, step, p >= 1);
            p += 1;
        }
        let ghost pushed = self@;
        proof {
            lemma_push_outputs_frame(base, base, word@, k as nat, output as nat, (k + 1) as nat);
        }
        self.update_alphabet_with_word(slice_subrange(word.as_slice(), k, n));
        let tkn = self.add_new_states(n - k);
        let rest = output - lower_of(sums[k], output);
        let ghost top = base.max_state();
        let ghost grown = self@;
        proof {
            assert(word@.subrange(k as int, n as int) =~= word@.skip(k as int));
        }
        let mut e: usize = k;
        while e < n
            invariant
                k <= e <= n,
                n == word@.len(),
                self.wf(),
                tkn@ == Seq::new((n - k) as nat, |j: int| (top + 1 + j) as usize),
                top + (n - k) <= usize::MAX,
                self@ == grown.add_chain(word@, k as nat, e as nat, tk, top, rest),
            decreases n - e,
        {
            let from = if e == k {
                tk
            } else {
                tkn[e - k - 1]
            };
            let to = tkn[e - k];
            self.add_delta_transition(from, word[e], to);
            add_to_or_insert(
                &mut self.lambda,
                from,
                word[e],
                if e == k {
                    rest
                } else {
                    0
                },
            );
            e += 1;
        }
        let last = if n > k {
            tkn[n - k - 1]
        } else {
            tk
        };
        insert_state(&mut self.finality, last);
        self.psi.insert(
            last,
            if n > k {
                0
            } else {
                rest
            },
        );
        proof {
            assert(last == chain_state(tk, top, k as nat, n as nat));
            assert(pushed.iota == m.iota) by {
                lemma_reduce_by_iota(m, (m.min_except.len() - k) as nat);
            }
            lemma_add_chain_iota(grown, word@, k as nat, n as nat, tk, top, rest);
        }
        self.iota = lower_of(self.iota, output);
        self.min_except = word;
    }

    /// Gives the transition that leaves `cur` on `c` a state of its own: the new
    /// state `fresh`, a copy of the state `next` that the transition entered.
    pub fn clone_state(&mut self, cur: usize, c: char, next: usize, fresh: usize)
        requires
            old(self).wf(),
            old(self)@.finality.contains(next) ==> old(self)@.psi.contains_key(next),
        ensures
            final(self).wf(),
            final(self)@ == old(self)@.clone_state(cur, c, next, fresh),
    {
        let ghost m = self@;
        insert_state(&mut self.states, fresh);
        self.add_delta_transition(cur, c, fresh);
        self.delta_inv.remove(next, c, cur);
        if has_state(&self.finality, next) {
            insert_state(&mut self.finality, fresh);
            let o = match self.psi.get(&next) {
                Some(o) => *o,
                None => 0,
            };
            self.psi.insert(fresh, o);
        }
        let ghost a = self@;
        let leaving: Vec<(char, usize)> = match self.delta.row(next) {
            Some(row) => copy_row(row),
            None => Vec::new(),
        };
        proof {
            assert(row_distinct(leaving@));
            assert forall|x: char| row_has(leaving@, x) <==> a.delta.contains_key((next, x)) by {
                if row_has(leaving@, x) && leaving@.len() == 0 {
                    let j = choose|j: int| 0 <= j < leaving@.len()
                        && (#[trigger] leaving@[j]).0 == x;
                }
            }
            assert forall|x: char| row_has(leaving@, x)
                implies row_value(leaving@, x) == a.delta[(next, x)] by {}
        }
        let mut i: usize = 0;
        assert(self.delta@ =~= Map::new(
            |k: (usize, char)| a.delta.contains_key(k) || (k.0 == fresh
                && row_has(leaving@.take(0), k.1)),
            |k: (usize, char)|
                if k.0 == fresh && row_has(leaving@.take(0), k.1) {
                    row_value(leaving@, k.1)
                } else {
                    a.delta[k]
                },
        )) by {
            assert forall|x: char| !row_has(leaving@.take(0), x) by {
                if row_has(leaving@.take(0), x) {
                    let j = choose|j: int| 0 <= j < leaving@.take(0).len()
                        && (#[trigger] leaving@.take(0)[j]).0 == x;
                }
            }
        }
        assert(self.delta_inv@ =~= Set::new(
            |e: (usize, char, usize)|
                a.delta_inv.contains(e) || (e.2 == fresh && row_has(leaving@.take(0), e.1)
                    && row_value(leaving@, e.1) == e.0),
        )) by {
            assert forall|x: char| !row_has(leaving@.take(0), x) by {
                if row_has(leaving@.take(0), x) {
                    let j = choose|j: int| 0 <= j < leaving@.take(0).len()
                        && (#[trigger] leaving@.take(0)[j]).0 == x;
                }
            }
        }
        while i < leaving.len()
            invariant
                i <= leaving.len(),
                self.wf(),
                row_distinct(leaving@),
                self.delta@ == Map::new(
                    |k: (usize, char)|
                        a.delta.contains_key(k) || (k.0 == fresh && row_has(
                            leaving@.take(i as int),
                            k.1,
                        )),
                    |k: (usize, char)|
                        if k.0 == fresh && row_has(leaving@.take(i as int), k.1) {
                            row_value(leaving@, k.1)
                        } else {
                            a.delta[k]
                        },
                ),
                self.delta_inv@ == Set::new(
                    |e: (usize, char, usize)|
                        a.delta_inv.contains(e) || (e.2 == fresh && row_has(
                            leaving@.take(i as int),
                            e.1,
                        ) && row_value(leaving@, e.1) == e.0),
                ),
                self@.lambda == a.lambda,
                self@.states == a.states,
                self@.finality == a.finality,
                self@.psi == a.psi,
                self@.iota == a.iota,
                self@.alphabet == a.alphabet,
                self@.min_except == a.min_except,
                self@.index == a.index,
            decreases leaving.len() - i,
        {
            let ch = leaving[i].0;
            let d = leaving[i].1;
            proof {
                lemma_row_value(leaving@, i as int);
                lemma_take_row_has(leaving@, i as int);
            }
            add_to_or_insert(&mut self.delta, fresh, ch, d);
            self.delta_inv.insert(d, ch, fresh);
            proof {
                assert(self.delta@ =~= Map::new(
                    |k: (usize, char)|
                        a.delta.contains_key(k) || (k.0 == fresh
                            && row_has(leaving@.take(i + 1), k.1)),
                    |k: (usize, char)|
                        if k.0 == fresh && row_has(leaving@.take(i + 1), k.1) {
                            row_value(leaving@, k.1)
                        } else {
                            a.delta[k]
                        },
                ));
                assert(self.delta_inv@ =~= Set::new(
                    |e: (usize, char, usize)|
                        a.delta_inv.contains(e) || (e.2 == fresh
                            && row_has(leaving@.take(i + 1), e.1)
                            && row_value(leaving@, e.1) == e.0),
                ));
            }
            i += 1;
        }
        assert(leaving@.take(i as int) =~= leaving@);
        let outputs: Option<Vec<(char, usize)>> = match self.lambda.row(next) {
            Some(row) => Some(copy_row(row)),
            None => None,
        };
        let ghost t = m.clone_state(cur, c, next, fresh);
        match outputs {
            Some(row) => {
                proof {
                    lemma_row_value(row@, 0);
                    assert(a.lambda.contains_key((next, row@[0].0)));
                    assert forall|x: char| row_has(row@, x)
                        <==> a.lambda.contains_key((next, x)) by {}
                    assert forall|x: char| row_has(row@, x)
                        implies row_value(row@, x) == a.lambda[(next, x)] by {}
                }
                self.lambda.set_row(fresh, row);
                proof {
                    assert(a.lambda == m.lambda);
                    let target = Map::new(
                        |k: (usize, char)|
                            if k.0 == fresh {
                                m.lambda.contains_key((next, k.1))
                            } else {
                                m.lambda.contains_key(k)
                            },
                        |k: (usize, char)|
                            if k.0 == fresh {
                                m.lambda[(next, k.1)]
                            } else {
                                m.lambda[k]
                            },
                    );
                    assert(self@.lambda =~= target);
                    assert(has_row(m.lambda, next));
                    assert(t.lambda =~= target);
                }
            },
            None => {
                assert forall|x: char| !a.lambda.contains_key((next, x)) by {}
                assert(!has_row(m.lambda, next));
                assert(self@.lambda =~= t.lambda);
            },
        }
        proof {
            assert(self@.delta =~= t.delta);
            assert(self@.delta_inv =~= t.delta_inv);
        }
    }

    /// Makes a minimal transducer minimal except along a given word: the states
    /// on the way along `word` that other transitions enter too are copied, and
    /// all the states on the way are taken from the index.
    ///
    /// The transducer must be minimal and read the word. It is then sound, with
    /// the path along the word, and computes what it computed.
    pub fn increase_except_from_epsilon_to_word(&mut self, word: &Vec<char>)
        requires
            old(self).wf(),
            old(self)@.minimal(),
            old(self)@.reads(word@),
            old(self)@.max_state() + word@.len() <= usize::MAX,
        ensures
            final(self).wf(),
            final(self)@ == old(self)@.increase_except_from_epsilon_to_word(word@),
            final(self)@.sound(),
            final(self)@.min_except == word@,
            equivalent(old(self)@, final(self)@),
            old(self)@.tidy() ==> final(self)@.tidy(),
    {
        proof {
            lemma_increase_along(old(self)@, word@, word@.len());
            if old(self)@.tidy() {
                lemma_increase_along_tidy(old(self)@, word@, word@.len());
            }
            assert(word@.take(word@.len() as int) =~= word@);
        }
        self.lay_path(word);
    }

    /// Lays the path along `word` where every step of it can be made.
    pub(crate) fn lay_path(&mut self, word: &Vec<char>)
        requires
            old(self).wf(),
            old(self)@.can_increase_along(word@, word@.len()),
        ensures
            final(self).wf(),
            final(self)@ == old(self)@.increase_except_from_epsilon_to_word(word@),
    {
        let ghost m = self@;
        let mut current_state = self.init_state;
        let mut max_state: usize = match greatest_state(&self.states) {
            Some(x) => *x,
            None => 0,
        };
        proof {
            lemma_can_increase_fewer(m, word@, word@.len(), 0);
            lemma_greatest(self@.states, max_state);
        }
        self.remove_signature(current_state);
        let mut i: usize = 0;
        while i < word.len()
            invariant
                i <= word.len(),
                self.wf(),
                m.can_increase_along(word@, word@.len()),
                (self@, current_state) == m.increase_along(word@, i as nat),
                is_greatest(self@.states, max_state),
            decreases word.len() - i,
        {
            proof {
                lemma_can_increase_fewer(m, word@, word@.len(), (i + 1) as nat);
                lemma_greatest(self@.states, max_state);
            }
            let next_state = match self.delta.get(current_state, word[i]) {
                Some(q) => q,
                None => 0,
            };
            if self.is_state_convergent(next_state) {
                max_state += 1;
                let new_state = max_state;
                self.clone_state(current_state, word[i], next_state, new_state);
                current_state = new_state;
            } else {
                self.remove_signature(next_state);
                current_state = next_state;
            }
            self.min_except.push(word[i]);
            i += 1;
        }
    }

    /// Adds a new entry to a minimal transducer, wherever the word stands among
    /// the entries so far.
    ///
    /// The transducer must be minimal. It is minimal again and accepts the word,
    /// with the given output, beside the words that it accepted; each of these
    /// but the empty word keeps its output. The initial output becomes the lower
    /// of itself and the given output, and the output of the empty word, where
    /// it is a word of the dictionary, falls by as much as the initial output.
    pub fn add_entry_out_of_order(&mut self, word: &str, output: usize)
        requires
            old(self).wf(),
            old(self)@.minimal(),
            old(self)@.max_state() + word@.len() <= usize::MAX,
        ensures
            final(self).wf(),
            final(self)@ == old(self)@.add_entry_out_of_order(word@, output),
            final(self)@.minimal(),
            final(self)@.output(word@) == output,
            forall|u: Seq<char>| #[trigger]
                final(self)@.accepts(u) <==> (old(self)@.accepts(u) || u == word@),
            forall|u: Seq<char>|
                old(self)@.accepts(u) && u != word@ && u.len() > 0
                    ==> #[trigger] final(self)@.output(u)
                    == old(self)@.output(u),
            old(self)@.tidy() && !old(self)@.accepts(word@) ==> final(self)@.tidy(),
            final(self)@.max_state() <= old(self)@.max_state() + word@.len(),
            final(self)@.iota == lower(old(self)@.iota as nat, output as nat),
            old(self)@.accepts(Seq::empty()) && word@.len() > 0
                ==> final(self)@.output(Seq::empty()) == old(self)@.output(Seq::empty())
                - old(self)@.iota + final(self)@.iota,
            old(self)@.tidy() && !old(self)@.accepts(word@) ==> fewest_states(final(self)@),
    {
        proof {
            lemma_add_entry_out_of_order(old(self)@, word@, output);
            if old(self)@.tidy() && !old(self)@.accepts(word@) {
                lemma_fewest_states(old(self)@.add_entry_out_of_order(word@, output));
            }
        }
        let word_vec = chars_of(word);
        let word_lcp = self.longest_common_prefix(&word_vec);
        proof {
            lemma_readable_len_unique(self@, word@, word_lcp@.len());
            lemma_run_prefix(self@, 0, word_lcp@, word_lcp@.len() as int);
        }
        self.increase_except_from_epsilon_to_word(&word_lcp);
        self.add_entry_in_order_raw(word, output);
        self.reduce_to_epsilon();
    }

    /// Constructs the minimal transducer of a dictionary whose entries stand in
    /// ascending order of their words.
    ///
    /// The dictionary must have an entry. The transducer is minimal, accepts the
    /// words of the dictionary and nothing else, and emits for each word but the
    /// empty one the output of its entry. Its initial output is the least output
    /// of the entries, and that is what it emits for the empty word where the
    /// dictionary holds it. No consistent transducer of the same dictionary has
    /// fewer states, and no state has a greater number than the dictionary has
    /// labels.
    pub fn from_dictionary(dictionary: Vec<(&str, usize)>) -> (t: Transducer)
        requires
            dictionary@.len() > 0,
            ascending(entries_view(dictionary@)),
            total_len(entries_view(dictionary@), dictionary@.len()) <= usize::MAX,
        ensures
            t.wf(),
            t@ == Model::from_dictionary(entries_view(dictionary@)),
            t@.minimal(),
            t@.tidy(),
            forall|u: Seq<char>| #[trigger]
                t@.accepts(u) <==> has_word(entries_view(dictionary@), dictionary@.len(), u),
            forall|j: int|
                0 <= j < dictionary@.len() && (#[trigger] dictionary@[j]).0@.len() > 0
                    ==> t@.output(
                    dictionary@[j].0@,
                ) == dictionary@[j].1,
            t@.iota == least_recorded(entries_view(dictionary@), dictionary@.len()),
            dictionary@[0].0@.len() == 0 ==> t@.output(Seq::empty()) == least_recorded(
                entries_view(dictionary@),
                dictionary@.len(),
            ),
            t@.max_state() <= total_len(entries_view(dictionary@), dictionary@.len()),
            fewest_states(t@),
    {
        let ghost entries = entries_view(dictionary@);
        proof {
            lemma_from_dictionary(entries);
            lemma_fewest_states(Model::from_dictionary(entries));
            assert forall|j: int| 0 <= j < dictionary@.len()
                && (#[trigger] dictionary@[j]).0@.len() > 0 implies Model::from_dictionary(
                entries,
            ).output(dictionary@[j].0@) == dictionary@[j].1 by {
                assert(entries[j].0 == dictionary@[j].0@);
            }
        }
        let capacity = if dictionary.len() <= usize::MAX / 30 {
            dictionary.len() * 30
        } else {
            dictionary.len()
        };
        let mut transducer = Transducer::from_entry_with_capacity(
            dictionary[0].0,
            dictionary[0].1,
            capacity,
        );
        let mut n: usize = 1;
        while n < dictionary.len()
            invariant
                1 <= n <= dictionary.len(),
                entries == entries_view(dictionary@),
                Model::can_build(entries),
                transducer.wf(),
                transducer@ == Model::from_entries(entries, n as nat),
            decreases dictionary.len() - n,
        {
            proof {
                lemma_can_insert_fewer(entries, entries.len(), (n + 1) as nat);
            }
            transducer.add_entry_in_order_raw(dictionary[n].0, dictionary[n].1);
            n += 1;
        }
        transducer.reduce_to_epsilon();
        transducer
    }
}

} // verus!
