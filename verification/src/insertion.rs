//! What inserting a word does to the model.

use crate::model::{lemma_run_prefix, Model};
use crate::utils::common_prefix_len;
use vstd::prelude::*;

verus! {

/// The lower of two numbers.
pub open spec fn lower(a: nat, b: nat) -> nat {
    if a <= b {
        a
    } else {
        b
    }
}

/// The state at position `i` of a path that follows an old path up to position
/// `k`, where it is in `tk`, and goes on through the new states `base + 1`,
/// `base + 2`, ..
pub open spec fn chain_state(tk: usize, base: usize, k: nat, i: nat) -> usize {
    if i <= k {
        tk
    } else {
        (base + (i - k)) as usize
    }
}

impl Model {
    /// What has been emitted when `w` has been read: the initial output and the
    /// transition outputs along `w`.
    pub open spec fn prefix_output(self, w: Seq<char>) -> nat {
        self.iota as nat + self.lambda_star(w)
    }

    /// The model with the outputs at `q` rewritten for a path that reaches `q`
    /// with `sum` emitted and from now on emits the lower of `sum` and `out`
    /// there. The transition in `step`, which is that of the path, gets the
    /// output given with it; every other transition that leaves `q`, and the
    /// final output of `q` if `adjust_final` asks for it, gets what the path no
    /// longer emits before it.
    pub open spec fn compensate(
        self,
        q: usize,
        sum: nat,
        out: nat,
        step: Option<(char, usize)>,
        adjust_final: bool,
    ) -> Model {
        Model {
            lambda: Map::new(
                |k: (usize, char)| self.lambda.contains_key(k),
                |k: (usize, char)|
                    if k.0 == q {
                        if step is Some && step.unwrap().0 == k.1 {
                            step.unwrap().1
                        } else {
                            (sum + self.lambda[k] - lower(sum, out)) as usize
                        }
                    } else {
                        self.lambda[k]
                    },
            ),
            psi: if adjust_final && self.finality.contains(q) {
                self.psi.insert(q, (sum + self.final_output(q) - lower(sum, out)) as usize)
            } else {
                self.psi
            },
            ..self
        }
    }

    /// The outputs that `compensate` computes at `q` fit the machine word.
    pub open spec fn can_compensate(self, q: usize, sum: nat, adjust_final: bool) -> bool {
        &&& sum <= usize::MAX
        &&& forall|c: char| #[trigger]
            self.lambda.contains_key((q, c)) ==> sum + self.lambda[(q, c)] <= usize::MAX
        &&& adjust_final ==> sum + self.final_output(q) <= usize::MAX
    }

    /// The transition of the path along `w` at position `p`, with the output that
    /// it gets when the path is to emit no more than `out`: none at position `k`,
    /// where the path ends.
    pub open spec fn path_step(self, w: Seq<char>, k: nat, out: nat, p: nat) -> Option<
        (char, usize),
    > {
        if p < k {
            Some(
                (
                    w[p as int],
                    (lower(self.prefix_output(w.take(p as int + 1)), out) - lower(
                        self.prefix_output(w.take(p as int)),
                        out,
                    )) as usize,
                ),
            )
        } else {
            None
        }
    }

    /// The model with the outputs rewritten at the first `upto` states of the
    /// path along `w`, as read in `base`.
    pub open spec fn push_outputs(self, base: Model, w: Seq<char>, k: nat, out: nat,
        upto: nat) -> Model
        decreases upto,
    {
        if upto == 0 {
            self
        } else {
            let p = (upto - 1) as nat;
            self.push_outputs(base, w, k, out, p).compensate(
                base.state_after(w.take(p as int)),
                base.prefix_output(w.take(p as int)),
                out,
                base.path_step(w, k, out, p),
                p >= 1,
            )
        }
    }

    /// Each step of `push_outputs` computes outputs that fit the machine word.
    pub open spec fn can_push_outputs(self, base: Model, w: Seq<char>, k: nat, out: nat,
        upto: nat) -> bool
        decreases upto,
    {
        upto > 0 ==> {
            let p = (upto - 1) as nat;
            &&& self.can_push_outputs(base, w, k, out, p)
            &&& self.push_outputs(base, w, k, out, p).can_compensate(
                base.state_after(w.take(p as int)),
                base.prefix_output(w.take(p as int)),
                p >= 1,
            )
        }
    }

    /// The model with the transitions of the new part of the path along `w`, from
    /// position `k` up to position `upto`: the first leaves `tk` and emits
    /// `branch_output`, the others run between new states and emit nothing.
    pub open spec fn add_chain(
        self,
        w: Seq<char>,
        k: nat,
        upto: nat,
        tk: usize,
        base: usize,
        branch_output: usize,
    ) -> Model
        decreases upto,
    {
        if upto <= k {
            self
        } else {
            let e = (upto - 1) as nat;
            let from = chain_state(tk, base, k, e);
            let linked = self.add_chain(w, k, e, tk, base, branch_output).add_delta_transition(
                from,
                w[e as int],
                chain_state(tk, base, k, upto),
            );
            Model {
                lambda: linked.lambda.insert(
                    (from, w[e as int]),
                    if e == k {
                        branch_output
                    } else {
                        0
                    },
                ),
                ..linked
            }
        }
    }

    /// The word can be inserted after the entries so far: where it leaves the
    /// words read so far, no transition on its next label exists yet.
    pub open spec fn insertable(self, word: Seq<char>) -> bool {
        let k = common_prefix_len(self.min_except, word);
        k < word.len() ==> !self.delta.contains_key(
            (self.state_after(word.take(k as int)), word[k as int]),
        )
    }

    /// Every step of inserting `word` with `output` can be made: the path can be
    /// reduced to the common prefix and read, and the outputs and the new states
    /// fit the machine word.
    pub open spec fn can_add(self, word: Seq<char>, output: usize) -> bool {
        let k = common_prefix_len(self.min_except, word);
        let base = self.reduce_by((self.min_except.len() - k) as nat);
        &&& self.reducible_by((self.min_except.len() - k) as nat)
        &&& base.reads(word.take(k as int))
        &&& base.has_outputs_along(word.take(k as int))
        &&& base.prefix_output(word.take(k as int)) <= usize::MAX
        &&& base.can_push_outputs(base, word, k, output as nat, k + 1)
        &&& base.max_state() + (word.len() - k) <= usize::MAX
    }

    /// The state at position `i` of the path along a new word: the last state of
    /// the path for `i` up to the length of `min_except`, a new state after that.
    pub open spec fn new_state(self, i: int) -> usize {
        chain_state(self.last_state(), self.max_state(), self.min_except.len(), i as nat)
    }

    /// What the first transition of the new part of a path emits when the whole
    /// path is to emit `out`: what `out` leaves over the output of the old path,
    /// capped by `out`.
    pub open spec fn branch_output(self, out: nat) -> usize {
        (out - lower(self.prefix_output(self.min_except), out)) as usize
    }

    /// The model with the outputs rewritten along the path, which is a prefix of
    /// `w`, and with the new states and the labels of the rest of `w`.
    pub open spec fn grown(self, w: Seq<char>, out: nat) -> Model {
        let k = self.min_except.len();
        let pushed = self.push_outputs(self, w, k, out, k + 1);
        Model {
            alphabet: pushed.alphabet.union(w.skip(k as int).to_set()),
            states: pushed.states.union(
                Set::new(|q: usize| self.max_state() < q <= self.max_state() + (w.len() - k)),
            ),
            ..pushed
        }
    }

    /// The grown model with the transitions of the new part of the path before
    /// position `upto`.
    pub open spec fn chained(self, w: Seq<char>, out: nat, upto: nat) -> Model {
        self.grown(w, out).add_chain(
            w,
            self.min_except.len(),
            upto,
            self.last_state(),
            self.max_state(),
            self.branch_output(out),
        )
    }

    /// The model with the word `w`, of which `min_except` is a prefix, inserted
    /// with the output `out`: the outputs along the path are lowered so that the
    /// path emits no more than `out`, and what it no longer emits moves to the
    /// transitions that leave it and to the final outputs on it; the rest of
    /// the word gets new states, and its last state is final.
    pub open spec fn extended(self, w: Seq<char>, out: usize) -> Model {
        let linked = self.chained(w, out as nat, w.len());
        let last = self.new_state(w.len() as int);
        Model {
            finality: linked.finality.insert(last),
            psi: linked.psi.insert(
                last,
                if w.len() > self.min_except.len() {
                    0
                } else {
                    self.branch_output(out as nat)
                },
            ),
            iota: lower(self.iota as nat, out as nat) as usize,
            min_except: w,
            ..linked
        }
    }

    /// The model after `word` has been inserted with `output`: the path is
    /// reduced to the common prefix of `min_except` and `word`, and the word is
    /// inserted there.
    pub open spec fn add_entry_in_order(self, word: Seq<char>, output: usize) -> Model {
        let k = common_prefix_len(self.min_except, word);
        self.reduce_by((self.min_except.len() - k) as nat).extended(word, output)
    }
}

/// `j` is the length of the longest prefix of `w` that `m` reads.
pub open spec fn is_readable_len(m: Model, w: Seq<char>, j: nat) -> bool {
    &&& j <= w.len()
    &&& m.reads(w.take(j as int))
    &&& j < w.len() ==> !m.reads(w.take(j as int + 1))
}

/// The length of the longest prefix of `w` that `m` reads.
pub open spec fn readable_len(m: Model, w: Seq<char>) -> nat {
    choose|j: nat| is_readable_len(m, w, j)
}

/// A word has a longest prefix that can be read.
pub proof fn lemma_readable_len(m: Model, w: Seq<char>)
    ensures
        is_readable_len(m, w, readable_len(m, w)),
{
    crate::model::lemma_run_empty(m, 0);
    assert(w.take(0) =~= Seq::<char>::empty());
    lemma_readable_from(m, w, 0);
}

/// A word of which the first `i` labels can be read has a longest prefix that
/// can be read.
proof fn lemma_readable_from(m: Model, w: Seq<char>, i: nat)
    requires
        i <= w.len(),
        m.reads(w.take(i as int)),
    ensures
        exists|j: nat| is_readable_len(m, w, j),
    decreases w.len() - i,
{
    if i < w.len() && m.reads(w.take(i as int + 1)) {
        lemma_readable_from(m, w, i + 1);
    } else {
        assert(is_readable_len(m, w, i));
    }
}

/// The longest prefix of a word that can be read has exactly one length.
pub proof fn lemma_readable_len_unique(m: Model, w: Seq<char>, j: nat)
    requires
        is_readable_len(m, w, j),
    ensures
        readable_len(m, w) == j,
{
    let i = readable_len(m, w);
    assert(is_readable_len(m, w, i));
    if i < j {
        lemma_run_prefix(m, 0, w.take(j as int), i as int + 1);
        assert(w.take(j as int).take(i as int + 1) =~= w.take(i as int + 1));
    } else if j < i {
        lemma_run_prefix(m, 0, w.take(i as int), j as int + 1);
        assert(w.take(i as int).take(j as int + 1) =~= w.take(j as int + 1));
    }
}

/// The table holds something for the state `q`.
pub open spec fn has_row(table: Map<(usize, char), usize>, q: usize) -> bool {
    exists|x: char| table.contains_key((q, x))
}

/// The entries of a dictionary as plain values.
pub open spec fn entries_view(dictionary: Seq<(&str, usize)>) -> Seq<(Seq<char>, usize)> {
    dictionary.map_values(|e: (&str, usize)| (e.0@, e.1))
}

impl Model {
    /// The model with the new state `fresh` as a copy of `next` for the
    /// transition that leaves `cur` on `c`: that transition now enters `fresh`,
    /// which is final where `next` is, with the same final output, and has the
    /// transitions and outputs of `next`.
    pub open spec fn clone_state(self, cur: usize, c: char, next: usize, fresh: usize) -> Model {
        let turned = (Model { states: self.states.insert(fresh), ..self }).add_delta_transition(
            cur,
            c,
            fresh,
        );
        let a = Model {
            delta_inv: turned.delta_inv.remove((next, c, cur)),
            finality: if self.finality.contains(next) {
                self.finality.insert(fresh)
            } else {
                self.finality
            },
            psi: if self.finality.contains(next) {
                self.psi.insert(fresh, self.psi[next])
            } else {
                self.psi
            },
            ..turned
        };
        Model {
            delta: Map::new(
                |k: (usize, char)|
                    a.delta.contains_key(k) || (k.0 == fresh && a.delta.contains_key((next, k.1))),
                |k: (usize, char)|
                    if k.0 == fresh && a.delta.contains_key((next, k.1)) {
                        a.delta[(next, k.1)]
                    } else {
                        a.delta[k]
                    },
            ),
            delta_inv: Set::new(
                |e: (usize, char, usize)|
                    a.delta_inv.contains(e) || (e.2 == fresh && a.delta.contains_key((next, e.1))
                        && a.delta[(next, e.1)] == e.0),
            ),
            lambda: if has_row(a.lambda, next) {
                Map::new(
                    |k: (usize, char)|
                        if k.0 == fresh {
                            a.lambda.contains_key((next, k.1))
                        } else {
                            a.lambda.contains_key(k)
                        },
                    |k: (usize, char)|
                        if k.0 == fresh {
                            a.lambda[(next, k.1)]
                        } else {
                            a.lambda[k]
                        },
                )
            } else {
                a.lambda
            },
            ..a
        }
    }

    /// The path can be made one label longer from `cur`.
    pub open spec fn can_increase(self, cur: usize, c: char) -> bool {
        let next = self.delta[(cur, c)];
        &&& self.delta.contains_key((cur, c))
        &&& if self.is_convergent(next) {
            &&& self.max_state() < usize::MAX
            &&& self.finality.contains(next) ==> self.psi.contains_key(next)
        } else {
            self.has_outputs_at(next)
        }
    }

    /// The model after the path has been made one label longer, from its last
    /// state `cur` on `c`, and the new last state of the path. A state that other
    /// transitions enter too is copied for the path; one that only the path
    /// enters is taken from the index.
    pub open spec fn increase_step(self, cur: usize, c: char) -> (Model, usize) {
        let next = self.delta[(cur, c)];
        if self.is_convergent(next) {
            let fresh = (self.max_state() + 1) as usize;
            (
                Model {
                    min_except: self.min_except.push(c),
                    ..self.clone_state(cur, c, next, fresh)
                },
                fresh,
            )
        } else {
            (Model { min_except: self.min_except.push(c), ..self.remove_signature(next) }, next)
        }
    }

    /// The model after the path has been laid along the first `i` labels of
    /// `word`, and the last state of the path.
    pub open spec fn increase_along(self, word: Seq<char>, i: nat) -> (Model, usize)
        decreases i,
    {
        if i == 0 {
            (self.remove_signature(0), 0)
        } else {
            let before = self.increase_along(word, (i - 1) as nat);
            before.0.increase_step(before.1, word[i - 1])
        }
    }

    /// Each step of laying the path along the first `i` labels of `word` can be made.
    pub open spec fn can_increase_along(self, word: Seq<char>, i: nat) -> bool
        decreases i,
    {
        if i == 0 {
            &&& self.min_except.len() == 0
            &&& self.has_outputs_at(0)
            &&& exists|q: usize| self.states.contains(q)
        } else {
            let before = self.increase_along(word, (i - 1) as nat);
            &&& self.can_increase_along(word, (i - 1) as nat)
            &&& before.0.can_increase(before.1, word[i - 1])
        }
    }

    /// The model that is minimal except along `word`, made from one that is minimal.
    pub open spec fn increase_except_from_epsilon_to_word(self, word: Seq<char>) -> Model {
        self.increase_along(word, word.len()).0
    }

    /// Every step of inserting `word` with `output` into a minimal transducer can
    /// be made.
    pub open spec fn can_add_out_of_order(self, word: Seq<char>, output: usize) -> bool {
        let prefix = word.take(readable_len(self, word) as int);
        let opened = self.increase_except_from_epsilon_to_word(prefix);
        &&& self.can_increase_along(prefix, prefix.len())
        &&& opened.can_add(word, output)
        &&& opened.add_entry_in_order(word, output).reducible_to_epsilon()
    }

    /// The model after `word` has been inserted with `output` into a minimal
    /// transducer: the path is laid along the longest prefix of the word that can
    /// be read, the word is inserted there, and the path is reduced again.
    pub open spec fn add_entry_out_of_order(self, word: Seq<char>, output: usize) -> Model {
        let prefix = word.take(readable_len(self, word) as int);
        self.increase_except_from_epsilon_to_word(prefix).add_entry_in_order(
            word,
            output,
        ).reduce_to_epsilon()
    }

    /// The model after the first `i` entries have been inserted in order, not yet
    /// reduced.
    pub open spec fn from_entries(entries: Seq<(Seq<char>, usize)>, i: nat) -> Model
        decreases i,
    {
        if i <= 1 {
            Model::single(entries[0].0, entries[0].1)
        } else {
            Model::from_entries(entries, (i - 1) as nat).add_entry_in_order(
                entries[i - 1].0,
                entries[i - 1].1,
            )
        }
    }

    /// Each of the first `i` entries can be inserted after those before it.
    pub open spec fn can_insert_entries(entries: Seq<(Seq<char>, usize)>, i: nat) -> bool
        decreases i,
    {
        i > 1 ==> {
            &&& Model::can_insert_entries(entries, (i - 1) as nat)
            &&& Model::from_entries(entries, (i - 1) as nat).can_add(
                entries[i - 1].0,
                entries[i - 1].1,
            )
        }
    }

    /// The dictionary can be built: it has an entry, each entry can be inserted
    /// after those before it, and the result can be reduced.
    pub open spec fn can_build(entries: Seq<(Seq<char>, usize)>) -> bool {
        &&& entries.len() > 0
        &&& Model::can_insert_entries(entries, entries.len())
        &&& Model::from_entries(entries, entries.len()).reducible_to_epsilon()
    }

    /// The minimal transducer of a dictionary.
    pub open spec fn from_dictionary(entries: Seq<(Seq<char>, usize)>) -> Model {
        Model::from_entries(entries, entries.len()).reduce_to_epsilon()
    }
}

/// Fewer entries can be inserted where more can.
pub proof fn lemma_can_insert_fewer(entries: Seq<(Seq<char>, usize)>, i: nat, j: nat)
    requires
        Model::can_insert_entries(entries, i),
        j <= i,
    ensures
        Model::can_insert_entries(entries, j),
    decreases i,
{
    if j < i {
        lemma_can_insert_fewer(entries, (i - 1) as nat, j);
    }
}

/// The path can be laid along fewer labels where it can be laid along more.
pub proof fn lemma_can_increase_fewer(m: Model, word: Seq<char>, i: nat, j: nat)
    requires
        m.can_increase_along(word, i),
        j <= i,
    ensures
        m.can_increase_along(word, j),
    decreases i,
{
    if j < i {
        lemma_can_increase_fewer(m, word, (i - 1) as nat, j);
    }
}

/// Rewriting outputs changes the outputs and nothing else.
pub proof fn lemma_push_outputs_frame(m: Model, base: Model, w: Seq<char>, k: nat, out: nat,
    upto: nat)
    ensures
        m.push_outputs(base, w, k, out, upto).alphabet == m.alphabet,
        m.push_outputs(base, w, k, out, upto).states == m.states,
        m.push_outputs(base, w, k, out, upto).finality == m.finality,
        m.push_outputs(base, w, k, out, upto).delta == m.delta,
        m.push_outputs(base, w, k, out, upto).delta_inv == m.delta_inv,
        m.push_outputs(base, w, k, out, upto).iota == m.iota,
        m.push_outputs(base, w, k, out, upto).min_except == m.min_except,
        m.push_outputs(base, w, k, out, upto).index == m.index,
    decreases upto,
{
    if upto > 0 {
        lemma_push_outputs_frame(m, base, w, k, out, (upto - 1) as nat);
    }
}

/// Adding the new part of a path leaves the initial output alone.
pub proof fn lemma_add_chain_iota(
    m: Model,
    w: Seq<char>,
    k: nat,
    upto: nat,
    tk: usize,
    base: usize,
    branch_output: usize,
)
    ensures
        m.add_chain(w, k, upto, tk, base, branch_output).iota == m.iota,
    decreases upto,
{
    if upto > k {
        lemma_add_chain_iota(m, w, k, (upto - 1) as nat, tk, base, branch_output);
    }
}

/// Fewer steps of rewriting outputs can be made where more can.
pub proof fn lemma_can_push_fewer(m: Model, base: Model, w: Seq<char>, k: nat, out: nat, upto: nat,
    j: nat)
    requires
        m.can_push_outputs(base, w, k, out, upto),
        j <= upto,
    ensures
        m.can_push_outputs(base, w, k, out, j),
    decreases upto,
{
    if j < upto {
        lemma_can_push_fewer(m, base, w, k, out, (upto - 1) as nat, j);
    }
}

} // verus!
