//! The outputs are emitted as early as possible: at every state the least
//! output is 0.

use crate::insertion::has_row;
use crate::model::{lemma_run_prefix, lemma_run_step, Model};
use crate::proofs::addition::{
    lemma_capped, lemma_extended_fields, lemma_last_state_bound, lemma_old_edges,
    lemma_path_output_step, lemma_ready,
};
use crate::proofs::canonical::lemma_least_output_exists;
use crate::proofs::cutting::{lemma_without_last, lemma_without_last_result};
use crate::proofs::opening::{
    lemma_copy_result, lemma_increase_along, lemma_next_state, lemma_open_plain,
};
use crate::proofs::paths::{lemma_on_path, lemma_path_distinct, lemma_path_index, lemma_path_steps};
use crate::proofs::reduction::{lemma_merge_result, lemma_path_end, lemma_reduce_by, lemma_twin};
use crate::proofs::rooted::lemma_reduce_by_rooted;
use crate::removal::lemma_least_output;
use crate::utils::common_prefix_len;
use vstd::prelude::*;

verus! {

impl Model {
    /// Every state is final or has a transition: no state is a dead end.
    #[verifier::opaque]
    pub open spec fn alive(self) -> bool {
        forall|q: usize| #[trigger] self.states.contains(q)
            ==> self.finality.contains(q) || has_row(
            self.delta,
            q,
        )
    }

    /// At every state one of the outputs is 0.
    #[verifier::opaque]
    pub open spec fn early(self) -> bool {
        forall|q: usize| #[trigger] self.states.contains(q) ==> self.has_output(q, 0)
    }

    /// No state is a dead end, and the outputs are emitted as early as possible.
    pub open spec fn tidy(self) -> bool {
        self.alive() && self.early()
    }

    /// The transition from `q` on `c` emits nothing.
    pub open spec fn silent_edge(self, q: usize, c: char) -> bool {
        self.lambda.contains_key((q, c)) && self.lambda[(q, c)] == 0
    }
}

/// Where a transition from a state emits nothing, one of the outputs at the
/// state is 0; so it is where its final output is 0.
pub proof fn lemma_has_zero(m: Model, q: usize, c: char)
    ensures
        m.silent_edge(q, c) ==> m.has_output(q, 0),
        m.psi.contains_key(q) && m.psi[q] == 0 ==> m.has_output(q, 0),
{
}

/// Where one of the outputs at a state is 0, its final output is 0 or one of
/// its transitions emits nothing.
pub proof fn lemma_zero_witness(m: Model, q: usize) -> (c: char)
    requires
        m.has_output(q, 0),
    ensures
        m.silent_edge(q, c) || (m.psi.contains_key(q) && m.psi[q] == 0),
{
    if exists|c: char| m.lambda.contains_key((q, c)) && m.lambda[(q, c)] == 0 {
        choose|c: char| m.lambda.contains_key((q, c)) && m.lambda[(q, c)] == 0
    } else {
        'a'
    }
}

/// In a tidy transducer the least output at every state is 0.
pub proof fn lemma_least_is_zero(m: Model, q: usize)
    requires
        m.tidy(),
        m.states.contains(q),
    ensures
        m.least_output(q) == 0,
{
    reveal(Model::early);
    assert(m.has_output(q, 0));
    assert(m.is_least_output(q, 0));
    lemma_least_output(m, q, 0);
}

/// The transducer of one word is tidy.
pub proof fn lemma_single_tidy(word: Seq<char>, out: usize)
    requires
        word.len() <= usize::MAX,
    ensures
        Model::single(word, out).tidy(),
{
    reveal(Model::alive);
    reveal(Model::early);
    let m = Model::single(word, out);
    assert forall|q: usize| #[trigger] m.states.contains(q)
        implies (m.finality.contains(q) || has_row(
        m.delta,
        q,
    )) && m.has_output(q, 0) by {
        if q < word.len() {
            assert(m.delta.contains_key((q, word[q as int])));
            assert(m.silent_edge(q, word[q as int]));
            lemma_has_zero(m, q, word[q as int]);
        }
    }
}

/// Taking a label from `min_except` keeps the transducer tidy.
pub proof fn lemma_reduce_step_tidy(m: Model)
    requires
        m.sound(),
        m.tidy(),
        m.min_except.len() > 0,
    ensures
        m.reduce_step().tidy(),
{
    reveal(Model::alive);
    reveal(Model::early);
    let r = m.reduce_step();
    lemma_path_end(m);
    if m.merges() {
        lemma_twin(m);
        lemma_merge_result(m);
        let t = m.last_state();
        assert forall|q: usize| #[trigger] r.states.contains(q)
            implies (r.finality.contains(q) || has_row(
            r.delta,
            q,
        )) && r.has_output(q, 0) by {
            assert(m.states.contains(q));
            if has_row(m.delta, q) {
                let c = choose|c: char| m.delta.contains_key((q, c));
                assert(r.delta.contains_key((q, c)));
            }
            let c = lemma_zero_witness(m, q);
            if m.silent_edge(q, c) {
                assert(r.silent_edge(q, c));
                lemma_has_zero(r, q, c);
            }
        }
    } else {
        assert forall|q: usize| #[trigger] r.states.contains(q)
            implies (r.finality.contains(q) || has_row(
            r.delta,
            q,
        )) && r.has_output(q, 0) by {
            assert(m.states.contains(q));
            let c = lemma_zero_witness(m, q);
            if m.silent_edge(q, c) {
                assert(r.silent_edge(q, c));
                lemma_has_zero(r, q, c);
            }
        }
    }
}

/// Taking `k` labels from `min_except` keeps the transducer tidy.
pub proof fn lemma_reduce_by_tidy(m: Model, k: nat)
    requires
        m.sound(),
        m.tidy(),
        k <= m.min_except.len(),
    ensures
        m.reduce_by(k).tidy(),
    decreases k,
{
    if k > 0 {
        lemma_reduce_by_tidy(m, (k - 1) as nat);
        lemma_reduce_by(m, (k - 1) as nat);
        lemma_reduce_by_rooted(m, (k - 1) as nat);
        lemma_reduce_step_tidy(m.reduce_by((k - 1) as nat));
    }
}

/// Registering a state leaves the transducer tidy.
pub proof fn lemma_same_outputs_tidy(a: Model, r: Model)
    requires
        a.tidy(),
        r.states == a.states,
        r.finality == a.finality,
        r.delta == a.delta,
        r.lambda == a.lambda,
        r.psi == a.psi,
    ensures
        r.tidy(),
{
    reveal(Model::alive);
    reveal(Model::early);
    assert forall|q: usize| #[trigger] r.states.contains(q) implies r.has_output(q, 0) by {
        let c = lemma_zero_witness(a, q);
        if a.silent_edge(q, c) {
            assert(r.silent_edge(q, c));
            lemma_has_zero(r, q, c);
        }
    }
}

/// Making the path one label longer keeps the transducer tidy.
pub proof fn lemma_open_step_tidy(a: Model, c: char)
    requires
        a.sound(),
        a.tidy(),
        a.delta.contains_key((a.last_state(), c)),
        a.max_state() < usize::MAX,
    ensures
        a.opened(c).tidy(),
{
    lemma_next_state(a, c);
    let r = a.opened(c);
    if a.is_convergent(a.next_state(c)) {
        lemma_copy_result(a, c);
        reveal(Model::alive);
        reveal(Model::early);
        reveal(Model::consistent);
        let next = a.next_state(c);
        let fresh = a.fresh_state();
        assert forall|q: usize| #[trigger] r.states.contains(q)
            implies (r.finality.contains(q) || has_row(
            r.delta,
            q,
        )) && r.has_output(q, 0) by {
            let from = if q == fresh {
                next
            } else {
                q
            };
            assert(a.states.contains(from));
            if has_row(a.delta, from) {
                let x = choose|x: char| a.delta.contains_key((from, x));
                assert(r.delta.contains_key((q, x)));
            }
            let x = lemma_zero_witness(a, from);
            if a.silent_edge(from, x) {
                assert(r.silent_edge(q, x));
                lemma_has_zero(r, q, x);
            } else {
                assert(a.finality.contains(from));
                if a.psi.contains_key(fresh) {
                    assert(a.finality.contains(fresh));
                }
            }
        }
    } else {
        lemma_open_plain(a, c);
        lemma_same_outputs_tidy(a, r);
    }
}

/// Inserting a word that is new into a base that is ready for it keeps the
/// transducer tidy.
pub proof fn lemma_extended_tidy(b: Model, w: Seq<char>, out: usize)
    requires
        b.ready_for(w),
        b.tidy(),
        !b.accepts(w),
    ensures
        b.extended(w, out).tidy(),
{
    let r = b.extended(w, out);
    let k = b.min_except.len() as int;
    let n = w.len() as int;
    lemma_extended_fields(b, w, out);
    lemma_old_edges(b, w);
    assert(b.consistent() && b.private_path() && b.reads(b.min_except)) by {
        reveal(Model::private_path);
    }
    lemma_last_state_bound(b);
    assert(b.min_except.take(k) =~= b.min_except);
    assert(b.last_state() == b.path_state(k));
    reveal(Model::alive);
    reveal(Model::early);
    assert forall|q: usize| #[trigger] r.states.contains(q)
        implies (r.finality.contains(q) || has_row(
        r.delta,
        q,
    )) && r.has_output(q, 0) by {
        if b.is_new_state(w, q) {
            let i = q - b.max_state() + k;
            if i < n {
                let key = (q, w[i]);
                assert(b.edge_index(q) == i);
                assert(b.is_new_edge(w, n, key));
                assert(r.delta.contains_key(key));
                assert(r.silent_edge(q, w[i]));
                lemma_has_zero(r, q, w[i]);
            }
        } else {
            assert(b.states.contains(q));
            if has_row(b.delta, q) {
                let x = choose|x: char| b.delta.contains_key((q, x));
                assert(r.delta.contains_key((q, x)));
            }
            if b.on_path(q) {
                lemma_extended_zero(b, w, out, q);
            } else {
                lemma_path_index(b, k);
                let x = lemma_zero_witness(b, q);
                if b.silent_edge(q, x) {
                    assert(!b.is_new_edge(w, n, (q, x)));
                    assert(r.silent_edge(q, x));
                    lemma_has_zero(r, q, x);
                }
            }
        }
    }
}

/// After a new word has been inserted, one of the outputs at each state of the
/// old path is 0.
proof fn lemma_extended_zero(b: Model, w: Seq<char>, out: usize, q: usize)
    requires
        b.ready_for(w),
        b.tidy(),
        !b.accepts(w),
        b.on_path(q),
    ensures
        b.extended(w, out).has_output(q, 0),
{
    let r = b.extended(w, out);
    let k = b.min_except.len() as int;
    let n = w.len() as int;
    lemma_extended_fields(b, w, out);
    lemma_old_edges(b, w);
    assert(b.consistent() && b.private_path() && b.reads(b.min_except)) by {
        reveal(Model::private_path);
    }
    lemma_last_state_bound(b);
    assert(b.min_except.take(k) =~= b.min_except);
    assert(b.last_state() == b.path_state(k));
    reveal(Model::early);
    reveal(Model::consistent);
    lemma_on_path(b, q);
    let i = b.path_index(q);
    lemma_path_steps(b, i);
    assert(b.states.contains(q));
    assert(b.has_output(q, 0));
    let o = out as nat;
    if i < k {
        lemma_path_distinct(b, i, k);
        lemma_capped(b, o, i);
        lemma_path_output_step(b, i);
        let edge = (q, b.min_except[i]);
        assert(b.lambda.contains_key(edge));
        assert(!b.is_new_edge(w, n, edge));
        assert(r.lambda[edge] == b.pushed_value(o, edge));
        if b.path_output(i) > o {
            assert(r.silent_edge(q, b.min_except[i]));
            lemma_has_zero(r, q, b.min_except[i]);
        } else {
            let x = lemma_zero_witness(b, q);
            if b.silent_edge(q, x) {
                assert(!b.is_new_edge(w, n, (q, x)));
                assert(r.lambda[(q, x)] == b.pushed_value(o, (q, x)));
                assert(r.silent_edge(q, x));
                lemma_has_zero(r, q, x);
            } else {
                assert(q != b.new_state(n));
            }
        }
    } else {
        assert(i == k);
        if b.path_output(k) >= o {
            if n > k {
                let edge = (q, w[k]);
                assert(b.edge_index(q) == k);
                assert(b.is_new_edge(w, n, edge));
                assert(r.silent_edge(q, w[k]));
                lemma_has_zero(r, q, w[k]);
            } else {
                assert(q == b.new_state(n));
            }
        } else {
            let x = lemma_zero_witness(b, q);
            if b.silent_edge(q, x) {
                assert(!b.is_new_edge(w, n, (q, x)));
                assert(r.lambda[(q, x)] == b.pushed_value(o, (q, x)));
                assert(r.silent_edge(q, x));
                lemma_has_zero(r, q, x);
            } else {
                assert(b.finality.contains(q));
                if n == k {
                    assert(w =~= b.min_except);
                }
                assert(q != b.new_state(n));
            }
        }
    }
}

/// Inserting a new word after the entries so far keeps the transducer tidy.
pub proof fn lemma_add_entry_in_order_tidy(m: Model, w: Seq<char>, out: usize)
    requires
        m.sound(),
        m.tidy(),
        !m.accepts(w),
        m.insertable(w),
        m.max_state() + (w.len() - common_prefix_len(m.min_except, w)) <= usize::MAX,
    ensures
        m.add_entry_in_order(w, out).tidy(),
{
    lemma_ready(m, w);
    let k = common_prefix_len(m.min_except, w);
    let j = (m.min_except.len() - k) as nat;
    lemma_reduce_by_tidy(m, j);
    let b = m.reduce_by(j);
    assert(m.reads(w) == b.reads(w));
    lemma_extended_tidy(b, w, out);
}

/// Reducing the path altogether keeps the transducer tidy.
pub proof fn lemma_reduce_to_epsilon_tidy(m: Model)
    requires
        m.sound(),
        m.tidy(),
    ensures
        m.reduce_to_epsilon().tidy(),
{
    let n = m.min_except.len();
    lemma_reduce_by_tidy(m, n);
    lemma_same_outputs_tidy(m.reduce_by(n), m.reduce_to_epsilon());
}

/// Laying the path along a word keeps the transducer tidy.
pub proof fn lemma_increase_along_tidy(m: Model, word: Seq<char>, i: nat)
    requires
        m.minimal(),
        m.tidy(),
        m.reads(word),
        i <= word.len(),
        m.max_state() + word.len() <= usize::MAX,
    ensures
        m.increase_along(word, i).0.tidy(),
    decreases i,
{
    if i == 0 {
        lemma_same_outputs_tidy(m, m.remove_signature(0));
    } else {
        lemma_increase_along_tidy(m, word, (i - 1) as nat);
        lemma_increase_along(m, word, (i - 1) as nat);
        let a = m.increase_along(word, (i - 1) as nat).0;
        let c = word[i - 1];
        assert(a.delta.contains_key((a.last_state(), c))) by {
            lemma_run_prefix(m, 0, word, i as int);
            assert(a.reads(word.take(i as int)) == m.reads(word.take(i as int)));
            lemma_run_step(a, 0, word, i - 1);
        }
        lemma_open_step_tidy(a, c);
    }
}

impl Model {
    /// Every state but `t` is final or has a transition.
    pub open spec fn alive_but(self, t: usize) -> bool {
        forall|q: usize| #[trigger] self.states.contains(q) && q != t ==> self.finality.contains(q)
            || has_row(self.delta, q)
    }

    /// At every state but `t` one of the outputs is 0.
    pub open spec fn early_but(self, t: usize) -> bool {
        forall|q: usize| #[trigger] self.states.contains(q) && q != t ==> self.has_output(q, 0)
    }
}

/// Taking the least output out at a state of the path, where every other state
/// has an output that is 0, makes the transducer tidy.
pub proof fn lemma_extract_tidy(x: Model, p: int)
    requires
        x.sound(),
        x.alive(),
        x.early_but(x.path_state(p)),
        0 <= p <= x.min_except.len(),
    ensures
        x.extract_min_from_state(x.path_state(p)).tidy(),
{
    let s = x.path_state(p);
    let r = x.extract_min_from_state(s);
    let v = x.least_output(s);
    lemma_least_output_exists(x, s);
    assert(x.consistent() && x.reads(x.min_except)) by {
        reveal(Model::private_path);
    }
    lemma_path_steps(x, p);
    reveal(Model::alive);
    reveal(Model::early);
    reveal(Model::consistent);
    assert forall|q: usize| #[trigger] r.states.contains(q) implies r.has_output(q, 0) by {
        if q != s {
            let c = lemma_zero_witness(x, q);
            if x.silent_edge(q, c) {
                assert(r.silent_edge(q, c));
                lemma_has_zero(r, q, c);
            }
        } else {
            if has_row(x.delta, s) {
                let c = choose|c: char| x.delta.contains_key((s, c));
                assert(x.lambda.contains_key((s, c)));
                assert(has_row(x.lambda, s));
            }
            assert(x.has_output(s, v));
            if exists|c: char| x.lambda.contains_key((s, c)) && x.lambda[(s, c)] == v {
                let c = choose|c: char| x.lambda.contains_key((s, c)) && x.lambda[(s, c)] == v;
                assert(r.silent_edge(s, c));
                lemma_has_zero(r, s, c);
            }
        }
    }
}

/// Raising the output of a transition of the path leaves every state but the
/// one that it leaves with an output that is 0.
pub proof fn lemma_raise_tidy(a: Model, i: int, v: nat)
    requires
        a.tidy(),
        1 <= i <= a.min_except.len(),
    ensures
        a.raised(i, v).alive(),
        a.raised(i, v).early_but(a.path_state(i - 1)),
{
    let r = a.raised(i, v);
    reveal(Model::alive);
    reveal(Model::early);
    assert forall|q: usize| #[trigger] r.states.contains(q) && q != a.path_state(i - 1)
        implies r.has_output(
        q,
        0,
    ) by {
        let c = lemma_zero_witness(a, q);
        if a.silent_edge(q, c) {
            assert(r.silent_edge(q, c));
            lemma_has_zero(r, q, c);
        }
    }
}

/// Where the state in which the path ends is no longer final and has a
/// transition, no state is a dead end, and every state but that one has an
/// output that is 0.
pub proof fn lemma_unmark_tidy(a: Model)
    requires
        a.tidy(),
        has_row(a.delta, a.last_state()),
    ensures
        a.unmark(a.last_state()).alive(),
        a.unmark(a.last_state()).early_but(a.last_state()),
{
    let r = a.unmark(a.last_state());
    reveal(Model::alive);
    reveal(Model::early);
    assert forall|q: usize| #[trigger] r.states.contains(q) && q != a.last_state()
        implies r.has_output(
        q,
        0,
    ) by {
        let c = lemma_zero_witness(a, q);
        if a.silent_edge(q, c) {
            assert(r.silent_edge(q, c));
            lemma_has_zero(r, q, c);
        }
    }
}

/// Deleting the last state of the path, from which no transition leaves, leaves
/// every state but the new last one as it was.
pub proof fn lemma_without_last_tidy(a: Model)
    requires
        a.sound(),
        a.min_except.len() > 0,
        !has_row(a.delta, a.last_state()),
        a.alive_but(a.last_state()),
        a.early_but(a.last_state()),
    ensures
        a.without_last().alive_but(a.state_before_last()),
        a.without_last().early_but(a.state_before_last()),
        a.is_divergent(a.state_before_last()) ==> a.without_last().finality.contains(
            a.state_before_last(),
        ) || has_row(a.without_last().delta, a.state_before_last()),
{
    lemma_without_last_result(a);
    lemma_path_end(a);
    let r = a.without_last();
    let p = a.state_before_last();
    let c = a.min_except.last();
    assert forall|q: usize| #[trigger] r.states.contains(q) && q != p
        implies (r.finality.contains(q)
        || has_row(r.delta, q)) && r.has_output(q, 0) by {
        assert(a.states.contains(q) && q != a.last_state());
        if has_row(a.delta, q) {
            let x = choose|x: char| a.delta.contains_key((q, x));
            assert(r.delta.contains_key((q, x)));
        }
        let x = lemma_zero_witness(a, q);
        if a.silent_edge(q, x) {
            assert(r.silent_edge(q, x));
            lemma_has_zero(r, q, x);
        }
    }
    if a.is_divergent(p) && !a.finality.contains(p) {
        let (c1, c2) = choose|c1: char, c2: char|
            c1 != c2 && a.delta.contains_key((p, c1)) && a.delta.contains_key((p, c2));
        let x = if c1 != c {
            c1
        } else {
            c2
        };
        assert(r.delta.contains_key((p, x)));
    }
}

/// Deleting the tail of the path that only its word needs leaves no dead end,
/// and every state but the last of the path with an output that is 0.
pub proof fn lemma_delete_back_tidy(a: Model, path: Seq<usize>, j: int)
    requires
        a.sound(),
        a.is_tail_from(j),
        a.min_except.len() < path.len(),
        forall|k: int| 0 <= k <= a.min_except.len() ==> #[trigger] path[k] == a.path_state(k),
        a.alive_but(a.last_state()),
        a.early_but(a.last_state()),
        j < a.min_except.len() ==> a.is_divergent(a.path_state(j)),
        j == a.min_except.len() ==> a.alive(),
    ensures
        a.delete_back(path, a.min_except.len(), path[j]).alive(),
        a.delete_back(path, a.min_except.len(), path[j]).early_but(path[j]),
    decreases a.min_except.len(),
{
    let i = a.min_except.len() as int;
    if i == j {
        assert(path[i] == a.path_state(i));
        assert(a.min_except.take(i) =~= a.min_except);
    } else {
        assert(a.consistent() && a.private_path() && a.reads(a.min_except)) by {
            reveal(Model::private_path);
        }
        lemma_path_end(a);
        lemma_path_distinct(a, j, i);
        assert(path[i] == a.path_state(i));
        assert(path[j] == a.path_state(j));
        lemma_without_last(a);
        lemma_without_last_tidy(a);
        let b = a.without_last();
        assert(b == (Model {
            min_except: if a.min_except.len() > 0 {
                a.min_except.drop_last()
            } else {
                a.min_except
            },
            ..a.delete_state(path[i])
        }));
        assert(b.is_tail_from(j)) by {
            if j < i - 1 {
                assert(!a.is_divergent(a.path_state(i - 1)));
            }
            assert forall|k: int| j < k < b.min_except.len() implies !b.is_divergent(
                #[trigger] b.path_state(k),
            ) by {
                assert(b.path_state(k) == a.path_state(k));
                assert(!a.is_divergent(a.path_state(k)));
                lemma_path_distinct(a, k, i - 1);
                lemma_path_distinct(a, k, i);
            }
        }
        assert forall|k: int| 0 <= k <= b.min_except.len()
            implies #[trigger] path[k] == b.path_state(k) by {
            assert(b.path_state(k) == a.path_state(k));
        }
        assert(b.path_state(j) == a.path_state(j));
        if j < i - 1 {
            lemma_path_distinct(a, j, i - 1);
            assert(b.is_divergent(b.path_state(j)));
        } else {
            reveal(Model::alive);
        }
        lemma_delete_back_tidy(b, path, j);
    }
}

} // verus!
