//! Taking a word out of the language: the state in which it ends is no longer
//! final, or the states that only this word needs are deleted.

use crate::insertion::has_row;
use crate::model::{
    lemma_run_empty, lemma_run_last, lemma_run_prefix, lemma_run_same_delta, lemma_run_step, Model,
    SignatureView,
};
use crate::proofs::addition::{lemma_last_state_bound, lemma_reads_state};
use crate::proofs::canonical::lemma_canonicalise;
use crate::proofs::earliest::{
    lemma_delete_back_tidy, lemma_increase_along_tidy, lemma_reduce_to_epsilon_tidy,
    lemma_unmark_tidy,
};
use crate::proofs::opening::{lemma_increase_along, lemma_increase_along_ends};
use crate::proofs::paths::{
    lemma_enters_path, lemma_greatest_exists, lemma_path_distinct, lemma_path_steps,
    lemma_reaches_path,
};
use crate::proofs::reduction::lemma_path_end;
use crate::proofs::rooted::lemma_reduce_to_epsilon;
use crate::utils::{common_prefix_len, lemma_common_prefix_len};
use crate::wellformed::lemma_ranked_sub;
use vstd::prelude::*;

verus! {

impl Model {
    /// The model without the last state of the path, and with the path one
    /// label shorter.
    pub open spec fn without_last(self) -> Model {
        Model {
            min_except: self.min_except.drop_last(),
            ..self.delete_state(self.last_state())
        }
    }
}

/// Where the state in which the path ends is no longer final, the transducer
/// stays sound; it accepts what it accepted but the word of the path, and
/// emits for what it accepts what it emitted.
pub proof fn lemma_unmark_last(a: Model)
    requires
        a.sound(),
    ensures
        a.unmark(a.last_state()).sound(),
        a.unmark(a.last_state()).min_except == a.min_except,
        forall|u: Seq<char>| #[trigger] a.unmark(a.last_state()).reads(u) == a.reads(u),
        forall|u: Seq<char>| #[trigger]
            a.unmark(a.last_state()).accepts(u) <==> (a.accepts(u) && u != a.min_except),
        forall|u: Seq<char>|
            a.unmark(a.last_state()).accepts(u) ==> #[trigger] a.unmark(a.last_state()).output(u)
                == a.output(u),
        a.unmark(a.last_state()).states == a.states,
{
    reveal(Model::consistent);
    reveal(Model::private_path);
    reveal(Model::index_exact);
    reveal(Model::fits);
    reveal(Model::accessible);
    let t = a.last_state();
    let r = a.unmark(t);
    let n = a.min_except.len() as int;
    assert(a.min_except.take(n) =~= a.min_except);
    lemma_path_steps(a, n);
    assert(a.on_path(t)) by {
        assert(a.path_state(n) == t);
    }
    assert forall|u: Seq<char>| #[trigger] r.reads(u) == a.reads(u) by {
        lemma_run_same_delta(a, r, 0, u);
    }
    assert forall|u: Seq<char>| #[trigger] r.accepts(u)
        <==> (a.accepts(u) && u != a.min_except) by {
        lemma_run_same_delta(a, r, 0, u);
        if a.reads(u) && a.state_after(u) == t {
            lemma_reaches_path(a, u, n);
        }
    }
    assert forall|u: Seq<char>| r.accepts(u) implies #[trigger] r.output(u) == a.output(u) by {
        lemma_run_same_delta(a, r, 0, u);
    }
    assert forall|i: int| 0 <= i <= n implies #[trigger] r.path_state(i) == a.path_state(i) by {
        lemma_run_same_delta(a, r, 0, a.min_except.take(i));
    }
    assert forall|x: usize| #[trigger] r.on_path(x) <==> a.on_path(x) by {
        if r.on_path(x) {
            let i = choose|i: int| 0 <= i <= r.min_except.len() && #[trigger] r.path_state(i) == x;
            assert(a.path_state(i) == x);
        }
        if a.on_path(x) {
            let i = choose|i: int| 0 <= i <= a.min_except.len() && #[trigger] a.path_state(i) == x;
            assert(r.path_state(i) == x);
        }
    }
    assert(r.private_path()) by {
        lemma_run_same_delta(a, r, 0, a.min_except);
        assert forall|k: (usize, char), i: int|
            #![trigger r.delta.contains_key(k), r.path_state(i)]
            r.delta.contains_key(k) && 1 <= i <= r.min_except.len()
                && r.delta[k] == r.path_state(i) implies k
            == (r.state_after(r.min_except.take(i - 1)), r.min_except[i - 1]) by {
            assert(r.path_state(i) == a.path_state(i));
            assert(r.path_state(i - 1) == a.path_state(i - 1));
            lemma_enters_path(a, k, i);
        }
    }
    assert forall|x: usize| !a.on_path(x) implies r.signature(x) == a.signature(x) by {
        assert(r.signature(x).transitions =~= a.signature(x).transitions);
    }
    assert forall|x: usize| #[trigger] r.states.contains(x) && !r.on_path(x)
        implies r.registered(x) by {
        assert(a.registered(x));
    }
    assert forall|s: SignatureView| #[trigger] r.index.contains_key(s) implies {
        &&& r.states.contains(r.index[s])
        &&& r.signature(r.index[s]) == s
        &&& !r.on_path(r.index[s])
    } by {
        assert(a.index.contains_key(s));
    }
    assert forall|u: Seq<char>| #[trigger] r.reads(u) implies r.output(u) <= usize::MAX by {
        lemma_run_same_delta(a, r, 0, u);
        assert(a.reads(u));
    }
    assert forall|x: usize| #[trigger] r.states.contains(x) implies r.reachable(x) by {
        assert(a.reachable(x));
        let u = choose|u: Seq<char>| a.run(0, u) == Some(x);
        lemma_run_same_delta(a, r, 0, u);
    }
    lemma_ranked_sub(a, r);
}

/// The model without the last state of the path, where no transition leaves
/// that state, written out.
pub proof fn lemma_without_last_result(a: Model)
    requires
        a.sound(),
        a.min_except.len() > 0,
        !has_row(a.delta, a.last_state()),
    ensures
        a.without_last().alphabet == a.alphabet,
        a.without_last().states == a.states.remove(a.last_state()),
        a.without_last().finality == a.finality.remove(a.last_state()),
        a.without_last().psi == a.psi.remove(a.last_state()),
        a.without_last().iota == a.iota,
        a.without_last().index == a.index,
        a.without_last().min_except == a.min_except.drop_last(),
        a.without_last().delta == a.delta.remove((a.state_before_last(), a.min_except.last())),
        a.without_last().lambda == a.lambda.remove((a.state_before_last(), a.min_except.last())),
        a.without_last().delta_inv == a.delta_inv.remove(
            (a.last_state(), a.min_except.last(), a.state_before_last()),
        ),
{
    reveal(Model::consistent);
    lemma_path_end(a);
    let t = a.last_state();
    let p = a.state_before_last();
    let c = a.min_except.last();
    let r = a.without_last();
    assert forall|x: char| !a.delta.contains_key((t, x)) by {
        if a.delta.contains_key((t, x)) {
            assert(has_row(a.delta, t));
        }
    }
    assert forall|k: (usize, char)| a.delta.contains_key(k)
        implies (a.enters(k, t) <==> k == (p, c)) by {
        if a.enters(k, t) {
            assert(a.delta_inv.contains((t, k.1, k.0)));
        }
        if k == (p, c) {
            assert(a.delta_inv.contains((a.delta[k], k.1, k.0)));
        }
    }
    assert forall|k: (usize, char)| a.lambda.contains_key(k)
        implies (a.enters(k, t) <==> k == (p, c))
        && k.0 != t by {
        assert(a.delta.contains_key(k));
    }
    assert(r.delta =~= a.delta.remove((p, c)));
    assert(r.lambda =~= a.lambda.remove((p, c)));
    assert(r.delta_inv =~= a.delta_inv.remove((t, c, p))) by {
        assert forall|e: (usize, char, usize)| a.delta_inv.contains(e)
            implies (e.0 == t <==> e == (t, c, p))
            && e.2 != t by {
            assert(a.delta.contains_key((e.2, e.1)));
        }
    }
}

/// In the transducer without the last state of the path, a run is a run of the
/// transducer with it.
pub proof fn lemma_without_last_run(a: Model, x: usize, u: Seq<char>)
    requires
        a.sound(),
        a.min_except.len() > 0,
        !has_row(a.delta, a.last_state()),
        a.without_last().run(x, u) is Some,
    ensures
        a.run(x, u) == a.without_last().run(x, u),
        a.weight(x, u) == a.without_last().weight(x, u),
    decreases u.len(),
{
    lemma_without_last_result(a);
    let r = a.without_last();
    if u.len() == 0 {
        lemma_run_empty(a, x);
        lemma_run_empty(r, x);
        assert(u =~= Seq::<char>::empty());
    } else {
        lemma_run_last(a, x, u);
        lemma_run_last(r, x, u);
        lemma_without_last_run(a, x, u.drop_last());
    }
}

/// A run of the transducer that does not end in the last state of the path,
/// from which no transition leaves, is a run of the transducer without that
/// state.
pub proof fn lemma_with_last_run(a: Model, x: usize, u: Seq<char>)
    requires
        a.sound(),
        a.min_except.len() > 0,
        !has_row(a.delta, a.last_state()),
        a.run(x, u) is Some,
        a.run(x, u).unwrap() != a.last_state(),
    ensures
        a.without_last().run(x, u) == a.run(x, u),
    decreases u.len(),
{
    lemma_without_last_result(a);
    let r = a.without_last();
    if u.len() == 0 {
        lemma_run_empty(a, x);
        lemma_run_empty(r, x);
        assert(u =~= Seq::<char>::empty());
    } else {
        lemma_run_last(a, x, u);
        lemma_run_last(r, x, u);
        let y = a.run(x, u.drop_last()).unwrap();
        if y == a.last_state() {
            assert(has_row(a.delta, a.last_state())) by {
                assert(a.delta.contains_key((a.last_state(), u.last())));
            }
        }
        lemma_with_last_run(a, x, u.drop_last());
        lemma_path_end(a);
    }
}

/// Deleting the last state of the path, from which no transition leaves, keeps
/// the transducer sound, with the path one state shorter. The transducer then
/// reads what it read but the word of the path, with the same outputs, and
/// accepts of it what it accepted.
pub proof fn lemma_without_last(a: Model)
    requires
        a.sound(),
        a.min_except.len() > 0,
        !has_row(a.delta, a.last_state()),
    ensures
        a.without_last().sound(),
        forall|u: Seq<char>| #[trigger]
            a.without_last().reads(u) <==> (a.reads(u) && u != a.min_except),
        forall|u: Seq<char>|
            a.without_last().reads(u) ==> #[trigger] a.without_last().output(u) == a.output(u)
                && a.without_last().accepts(u) == a.accepts(u) && a.without_last().state_after(u)
                == a.state_after(u),
        forall|i: int|
            0 <= i < a.min_except.len()
                ==> #[trigger] a.without_last().path_state(i) == a.path_state(i),
        forall|x: usize| #[trigger] a.without_last().states.contains(x) ==> a.states.contains(x),
        forall|x: usize|
            x != a.state_before_last() ==> #[trigger] a.without_last().is_divergent(x)
                == a.is_divergent(x) || x == a.last_state(),
        !a.is_divergent(a.state_before_last()) ==> !has_row(
            a.without_last().delta,
            a.state_before_last(),
        ),
        a.without_last().last_state() == a.state_before_last(),
{
    reveal(Model::consistent);
    reveal(Model::private_path);
    reveal(Model::index_exact);
    reveal(Model::fits);
    reveal(Model::accessible);
    lemma_path_end(a);
    lemma_without_last_result(a);
    let t = a.last_state();
    let p = a.state_before_last();
    let c = a.min_except.last();
    let r = a.without_last();
    let n = a.min_except.len() as int;
    assert(r.consistent()) by {
        assert forall|k: (usize, char)| #[trigger] r.delta.contains_key(k) implies {
            &&& r.lambda.contains_key(k)
            &&& r.states.contains(k.0)
            &&& r.states.contains(r.delta[k])
            &&& r.alphabet.contains(k.1)
            &&& r.delta[k] != 0
            &&& r.delta_inv.contains((r.delta[k], k.1, k.0))
        } by {
            assert(a.delta.contains_key(k));
            if k.0 == t {
                assert(has_row(a.delta, t));
            }
        }
        assert forall|e: (usize, char, usize)| #[trigger] r.delta_inv.contains(e)
            implies r.delta.contains_key(
            (e.2, e.1),
        ) && r.delta[(e.2, e.1)] == e.0 by {
            assert(a.delta_inv.contains(e));
        }
        assert forall|k: (usize, char)| #[trigger] r.lambda.contains_key(k)
            implies r.delta.contains_key(k) by {
            assert(a.lambda.contains_key(k));
        }
        assert forall|q: usize| #[trigger] r.psi.contains_key(q) implies r.finality.contains(q) by {
            assert(a.psi.contains_key(q));
        }
        assert forall|q: usize| #[trigger] r.finality.contains(q) implies r.psi.contains_key(q)
            && r.states.contains(q) by {
            assert(a.finality.contains(q));
        }
    }
    assert forall|u: Seq<char>| #[trigger] r.reads(u) <==> (a.reads(u) && u != a.min_except) by {
        if r.reads(u) {
            lemma_without_last_run(a, 0, u);
            lemma_reads_state(r, u);
        }
        if a.reads(u) && u != a.min_except {
            if a.state_after(u) == t {
                lemma_reaches_path(a, u, n);
                assert(a.min_except.take(n) =~= a.min_except);
            }
            lemma_with_last_run(a, 0, u);
        }
    }
    assert forall|u: Seq<char>| r.reads(u)
        implies #[trigger] r.output(u) == a.output(u) && r.accepts(u)
        == a.accepts(u) && r.state_after(u) == a.state_after(u) by {
        lemma_without_last_run(a, 0, u);
        lemma_reads_state(r, u);
    }
    assert forall|i: int| 0 <= i < n implies #[trigger] r.path_state(i) == a.path_state(i) by {
        assert(r.min_except.take(i) =~= a.min_except.take(i));
        lemma_path_steps(a, i);
        lemma_path_distinct(a, i, n);
        lemma_with_last_run(a, 0, a.min_except.take(i));
    }
    assert(r.min_except =~= a.min_except.take(n - 1));
    assert(r.min_except.take(n - 1) =~= r.min_except);
    assert(r.last_state() == p) by {
        lemma_path_steps(a, n - 1);
        assert(a.min_except.take(n - 1) =~= a.min_except.drop_last());
        lemma_with_last_run(a, 0, a.min_except.take(n - 1));
    }
    assert forall|x: usize| #[trigger] r.on_path(x) <==> (a.on_path(x) && x != t) by {
        if r.on_path(x) {
            let i = choose|i: int| 0 <= i <= r.min_except.len() && #[trigger] r.path_state(i) == x;
            assert(a.path_state(i) == x);
            lemma_path_distinct(a, i, n);
        }
        if a.on_path(x) && x != t {
            let i = choose|i: int| 0 <= i <= a.min_except.len() && #[trigger] a.path_state(i) == x;
            assert(r.path_state(i) == x);
        }
    }
    assert(r.private_path()) by {
        lemma_path_steps(a, n - 1);
        lemma_with_last_run(a, 0, a.min_except.take(n - 1));
        assert forall|k: (usize, char), i: int|
            #![trigger r.delta.contains_key(k), r.path_state(i)]
            r.delta.contains_key(k) && 1 <= i <= r.min_except.len()
                && r.delta[k] == r.path_state(i) implies k
            == (r.state_after(r.min_except.take(i - 1)), r.min_except[i - 1]) by {
            assert(r.path_state(i) == a.path_state(i));
            assert(r.path_state(i - 1) == a.path_state(i - 1));
            lemma_enters_path(a, k, i);
        }
    }
    assert forall|x: usize| !a.on_path(x) implies r.signature(x) == a.signature(x) by {
        assert(r.signature(x).transitions =~= a.signature(x).transitions);
    }
    assert forall|x: usize| #[trigger] r.states.contains(x) && !r.on_path(x)
        implies r.registered(x) by {
        assert(a.registered(x));
    }
    assert forall|s: SignatureView| #[trigger] r.index.contains_key(s) implies {
        &&& r.states.contains(r.index[s])
        &&& r.signature(r.index[s]) == s
        &&& !r.on_path(r.index[s])
    } by {
        assert(a.index.contains_key(s));
    }
    assert forall|u: Seq<char>| #[trigger] r.reads(u) implies r.output(u) <= usize::MAX by {
        assert(a.reads(u));
    }
    assert forall|x: usize| #[trigger] r.states.contains(x) implies r.reachable(x) by {
        assert(a.reachable(x));
        let u = choose|u: Seq<char>| a.run(0, u) == Some(x);
        lemma_with_last_run(a, 0, u);
    }
    lemma_ranked_sub(a, r);
    assert forall|x: usize| x != p
        implies #[trigger] r.is_divergent(x) == a.is_divergent(x) || x == t by {
        if x != t {
            if a.is_divergent(x) && !a.finality.contains(x) {
                let (c1, c2) = choose|c1: char, c2: char|
                    c1 != c2 && a.delta.contains_key((x, c1)) && a.delta.contains_key((x, c2));
                assert(r.delta.contains_key((x, c1)) && r.delta.contains_key((x, c2)));
            }
            if r.is_divergent(x) && !r.finality.contains(x) {
                let (c1, c2) = choose|c1: char, c2: char|
                    c1 != c2 && r.delta.contains_key((x, c1)) && r.delta.contains_key((x, c2));
                assert(a.delta.contains_key((x, c1)) && a.delta.contains_key((x, c2)));
            }
        }
    }
    if !a.is_divergent(p) {
        if has_row(r.delta, p) {
            let x = choose|x: char| r.delta.contains_key((p, x));
            assert(a.delta.contains_key((p, x)) && a.delta.contains_key((p, c)) && x != c);
        }
    }
}

impl Model {
    /// Going back along the path from its position `i`: the position of the
    /// first state met that is final or has more than one outgoing transition,
    /// and -1 where the way back reaches the initial state without meeting one.
    pub open spec fn last_divergent(self, i: nat) -> int
        decreases i,
    {
        if i == 0 {
            -1
        } else {
            let s = self.path_state(i - 1);
            if self.is_divergent(s) {
                i - 1
            } else if s == 0 {
                -1
            } else {
                self.last_divergent((i - 1) as nat)
            }
        }
    }

    /// From position `j` of the path on, the path is a tail that only its own
    /// word needs: no transition leaves its last state, and the states between
    /// are not final and have no second transition.
    pub open spec fn is_tail_from(self, j: int) -> bool {
        &&& 0 <= j <= self.min_except.len()
        &&& j < self.min_except.len() ==> !has_row(self.delta, self.last_state())
        &&& forall|k: int| j < k < self.min_except.len()
            ==> !self.is_divergent(#[trigger] self.path_state(k))
    }

    /// `u` is one of the prefixes of `min_except` that are longer than `j`.
    pub open spec fn in_tail(self, j: int, u: Seq<char>) -> bool {
        j < u.len() <= self.min_except.len() && u == self.min_except.take(u.len() as int)
    }
}

/// What going back along the path finds.
pub proof fn lemma_last_divergent(m: Model, i: nat)
    requires
        m.consistent(),
        m.reads(m.min_except),
        i <= m.min_except.len(),
    ensures
        -1 <= m.last_divergent(i) < i,
        m.last_divergent(i) >= 0 ==> m.is_divergent(m.path_state(m.last_divergent(i))),
        forall|k: int| m.last_divergent(i) < k < i ==> !m.is_divergent(#[trigger] m.path_state(k)),
        m.prev_divergent(m.min_except, i) == (if m.last_divergent(i) >= 0 {
            Some((m.min_except[m.last_divergent(i)], m.path_state(m.last_divergent(i))))
        } else {
            None
        }),
    decreases i,
{
    if i > 0 {
        lemma_last_divergent(m, (i - 1) as nat);
        lemma_path_steps(m, i - 1);
    }
}

/// Where a state of the path before position `i` is final or has more than one
/// outgoing transition, going back from `i` finds one.
pub proof fn lemma_last_divergent_found(m: Model, i: nat, p: int)
    requires
        m.consistent(),
        m.reads(m.min_except),
        i <= m.min_except.len(),
        0 <= p < i,
        m.is_divergent(m.path_state(p)),
    ensures
        m.last_divergent(i) >= p,
    decreases i,
{
    lemma_path_steps(m, i - 1);
    if p < i - 1 {
        lemma_last_divergent_found(m, (i - 1) as nat, p);
    }
}

/// The path is the one private word that leads to its last state.
pub proof fn lemma_private_word(o: Model)
    requires
        o.sound(),
    ensures
        o.leads_privately(o.min_except, o.last_state()),
        o.reached_privately(o.last_state()),
        o.private_word_to(o.last_state()) == o.min_except,
{
    reveal(Model::consistent);
    reveal(Model::private_path);
    let n = o.min_except.len() as int;
    assert(o.min_except.take(n) =~= o.min_except);
    assert forall|i: int| 1 <= i <= n implies (#[trigger] o.state_after(o.min_except.take(i))) != 0
        && o.sole_entry(
        o.state_after(o.min_except.take(i)),
        o.min_except[i - 1],
        o.state_after(o.min_except.take(i - 1)),
    ) by {
        lemma_path_steps(o, i);
        assert forall|x: char, s: usize| #[trigger]
            o.delta_inv.contains((o.path_state(i), x, s)) <==> (x == o.min_except[i - 1] && s
                == o.path_state(i - 1)) by {
            if o.delta_inv.contains((o.path_state(i), x, s)) {
                lemma_enters_path(o, (s, x), i);
            }
        }
    }
    assert(o.leads_privately(o.min_except, o.last_state()));
    let w = o.private_word_to(o.last_state());
    assert(o.leads_privately(w, o.last_state()));
    lemma_path_steps(o, n);
    lemma_reaches_path(o, w, n);
}

/// Deleting the tail of the path can be done and keeps the transducer sound,
/// with the path up to where the tail began. The transducer then reads what it
/// read but the words of the tail, with the same outputs, and accepts of it
/// what it accepted.
pub proof fn lemma_delete_back(a: Model, path: Seq<usize>, j: int)
    requires
        a.sound(),
        a.is_tail_from(j),
        a.min_except.len() < path.len(),
        forall|k: int| 0 <= k <= a.min_except.len() ==> #[trigger] path[k] == a.path_state(k),
    ensures
        Model::can_delete_back(path, a.min_except.len(), path[j]),
        a.delete_back(path, a.min_except.len(), path[j]).sound(),
        a.delete_back(path, a.min_except.len(), path[j]).min_except == a.min_except.take(j),
        forall|u: Seq<char>| #[trigger]
            a.delete_back(path, a.min_except.len(), path[j]).reads(u)
                <==> (a.reads(u) && !a.in_tail(
                j,
                u,
            )),
        forall|u: Seq<char>|
            a.delete_back(path, a.min_except.len(), path[j]).reads(u) ==> #[trigger] a.delete_back(
                path,
                a.min_except.len(),
                path[j],
            ).output(u) == a.output(u)
                && a.delete_back(path, a.min_except.len(), path[j]).accepts(u)
                == a.accepts(u) && a.delete_back(path, a.min_except.len(), path[j]).state_after(u)
                == a.state_after(u),
        forall|x: usize| #[trigger]
            a.delete_back(path, a.min_except.len(), path[j]).states.contains(x)
                ==> a.states.contains(x),
    decreases a.min_except.len(),
{
    let i = a.min_except.len() as int;
    let r = a.delete_back(path, i as nat, path[j]);
    if i == j {
        assert(a.min_except.take(j) =~= a.min_except);
        assert(path[i] == a.path_state(i));
    } else {
        reveal(Model::consistent);
        reveal(Model::private_path);
        lemma_path_end(a);
        lemma_path_distinct(a, j, i);
        assert(path[i] == a.path_state(i));
        assert(path[j] == a.path_state(j));
        lemma_without_last(a);
        let b = a.without_last();
        assert(b == (Model {
            min_except: if a.min_except.len() > 0 {
                a.min_except.drop_last()
            } else {
                a.min_except
            },
            ..a.delete_state(path[i])
        }));
        assert(b.is_tail_from(j)) by {
            if j < i - 1 {
                assert(!a.is_divergent(a.path_state(i - 1)));
            }
            assert forall|k: int| j < k < b.min_except.len() implies !b.is_divergent(
                #[trigger] b.path_state(k),
            ) by {
                assert(b.path_state(k) == a.path_state(k));
                assert(!a.is_divergent(a.path_state(k)));
                lemma_path_distinct(a, k, i - 1);
                lemma_path_distinct(a, k, i);
            }
        }
        assert forall|k: int| 0 <= k <= b.min_except.len()
            implies #[trigger] path[k] == b.path_state(k) by {
            assert(b.path_state(k) == a.path_state(k));
        }
        lemma_delete_back(b, path, j);
        assert(b.min_except.take(j) =~= a.min_except.take(j));
        assert forall|u: Seq<char>| #[trigger] r.reads(u) <==> (a.reads(u) && !a.in_tail(j, u)) by {
            assert(b.reads(u) <==> (a.reads(u) && u != a.min_except));
            assert(a.min_except.take(i) =~= a.min_except);
            if u.len() <= b.min_except.len() {
                assert(b.min_except.take(u.len() as int) =~= a.min_except.take(u.len() as int));
            }
        }
        assert forall|u: Seq<char>| r.reads(u)
            implies #[trigger] r.output(u) == a.output(u) && r.accepts(u)
            == a.accepts(u) && r.state_after(u) == a.state_after(u) by {
            assert(b.reads(u));
        }
        assert forall|x: usize| #[trigger] r.states.contains(x) implies a.states.contains(x) by {
            assert(b.states.contains(x));
        }
    }
}

impl Model {
    /// The dictionary holds a word other than `word`.
    pub open spec fn has_other_word(self, word: Seq<char>) -> bool {
        exists|u: Seq<char>| self.accepts(u) && u != word
    }

    /// The transducer from which `word` has been taken out, not yet canonical.
    pub open spec fn without_word(self, word: Seq<char>) -> Model {
        self.cut_branch(word).unmark(
            self.increase_except_from_epsilon_to_word(word).state_after(word),
        )
    }
}

/// Where a consistent transducer accepts a word and another one, and no
/// transition leaves the state in which the first ends, the other word leaves
/// the first before its end, in a state that is final or has more than one
/// outgoing transition.
pub proof fn lemma_other_word(m: Model, word: Seq<char>, u: Seq<char>) -> (p: int)
    requires
        m.consistent(),
        m.accepts(word),
        !has_row(m.delta, m.state_after(word)),
        m.accepts(u),
        u != word,
    ensures
        m.branches_before(word, p),
{
    let w = word;
    let n = w.len() as int;
    lemma_common_prefix_len(u, w);
    let k = common_prefix_len(u, w) as int;
    assert(u.take(k) =~= w.take(k));
    lemma_run_prefix(m, 0, u, k);
    lemma_run_prefix(m, 0, w, k);
    if k == n {
        assert(w.take(n) =~= w);
        if u.len() == n {
            assert(u.take(n) =~= u);
        }
        lemma_run_prefix(m, 0, u, n + 1);
        lemma_run_step(m, 0, u, n);
        assert(m.delta.contains_key((m.state_after(w), u[n])));
        assert(has_row(m.delta, m.state_after(w)));
    }
    if k == u.len() {
        assert(u.take(k) =~= u);
    } else {
        lemma_run_prefix(m, 0, u, k + 1);
        lemma_run_step(m, 0, u, k);
        lemma_run_prefix(m, 0, w, k + 1);
        lemma_run_step(m, 0, w, k);
        assert(m.delta.contains_key((m.state_after(w.take(k)), u[k])));
        assert(m.delta.contains_key((m.state_after(w.take(k)), w[k])));
    }
    k
}

/// A word of a dictionary that holds another word can be deleted.
pub proof fn lemma_removable(m: Model, word: Seq<char>)
    requires
        m.consistent(),
        word.len() > 0,
        m.accepts(word),
        m.has_other_word(word),
    ensures
        m.removable(word),
{
    if !has_row(m.delta, m.state_after(word)) {
        let other = choose|u: Seq<char>| m.accepts(u) && u != word;
        let p = lemma_other_word(m, word, other);
    }
}

impl Model {
    /// The model without the tail of the path that only the word of the path needs.
    pub open spec fn without_tail(self) -> Model {
        self.delete_back(
            self.state_sequence(self.min_except),
            self.min_except.len(),
            self.prev_divergent_state(self.last_state()).unwrap().1,
        )
    }
}

/// Where no transition leaves the last state of the path, and the transducer
/// accepts another word than that of the path, the tail of the path that only
/// its word needs can be found and deleted.
pub proof fn lemma_tail_found(o: Model, p: int)
    requires
        o.sound(),
        !has_row(o.delta, o.last_state()),
        0 <= p < o.min_except.len(),
        o.is_divergent(o.path_state(p)),
    ensures
        o.reached_privately(o.last_state()),
        o.prev_divergent_state(o.last_state()) is Some,
        0 <= o.last_divergent(o.min_except.len()) < o.min_except.len(),
        o.prev_divergent_state(o.last_state()).unwrap().1 == o.path_state(
            o.last_divergent(o.min_except.len()),
        ),
        o.is_tail_from(o.last_divergent(o.min_except.len())),
        o.is_divergent(o.path_state(o.last_divergent(o.min_except.len()))),
{
    let n = o.min_except.len();
    lemma_private_word(o);
    assert(o.consistent() && o.reads(o.min_except)) by {
        reveal(Model::private_path);
    }
    lemma_last_divergent(o, n);
    lemma_last_divergent_found(o, n, p);
}

/// Deleting the tail of the path that only its word needs keeps the transducer
/// sound. The transducer then accepts what it accepted but the word of the
/// path, and emits for what it accepts what it emitted.
pub proof fn lemma_without_tail(o: Model, p: int)
    requires
        o.sound(),
        !has_row(o.delta, o.last_state()),
        0 <= p < o.min_except.len(),
        o.is_divergent(o.path_state(p)),
    ensures
        o.reached_privately(o.last_state()),
        o.prev_divergent_state(o.last_state()) is Some,
        Model::can_delete_back(
            o.state_sequence(o.min_except),
            o.min_except.len(),
            o.prev_divergent_state(o.last_state()).unwrap().1,
        ),
        o.without_tail().sound(),
        o.without_tail().unmark(o.last_state()) == o.without_tail(),
        forall|u: Seq<char>| #[trigger]
            o.without_tail().accepts(u) <==> (o.accepts(u) && u != o.min_except),
        forall|u: Seq<char>|
            o.without_tail().accepts(u) ==> #[trigger] o.without_tail().output(u) == o.output(u),
        forall|x: usize| #[trigger] o.without_tail().states.contains(x) ==> o.states.contains(x),
        o.tidy() ==> o.without_tail().alive() && o.without_tail().early_but(
            o.without_tail().last_state(),
        ),
{
    let n = o.min_except.len();
    lemma_tail_found(o, p);
    let j = o.last_divergent(n);
    let path = o.state_sequence(o.min_except);
    let tn = o.last_state();
    assert(o.min_except.take(n as int) =~= o.min_except);
    assert forall|k: int| 0 <= k <= o.min_except.len()
        implies #[trigger] path[k] == o.path_state(k) by {}
    lemma_delete_back(o, path, j);
    let cut = o.without_tail();
    assert(cut == o.delete_back(path, n, path[j]));
    if o.tidy() {
        assert(o.alive_but(o.last_state()) && o.early_but(o.last_state())) by {
            reveal(Model::alive);
            reveal(Model::early);
        }
        lemma_delete_back_tidy(o, path, j);
        assert(cut.last_state() == path[j]) by {
            assert(cut.min_except == o.min_except.take(j));
            assert(cut.sound());
            reveal(Model::private_path);
            assert(cut.reads(cut.min_except));
            assert(cut.output(cut.min_except) == o.output(cut.min_except));
            assert(cut.state_after(cut.min_except) == o.state_after(cut.min_except));
        }
    }
    assert(o.consistent() && o.reads(o.min_except)) by {
        reveal(Model::private_path);
    }
    assert(!cut.states.contains(tn)) by {
        reveal(Model::accessible);
        if cut.states.contains(tn) {
            assert(cut.reachable(tn));
            let u = choose|u: Seq<char>| cut.run(0, u) == Some(tn);
            assert(cut.reads(u));
            assert(cut.output(u) == o.output(u));
            assert(cut.state_after(u) == o.state_after(u));
            lemma_path_steps(o, n as int);
            lemma_reaches_path(o, u, n as int);
            assert(o.in_tail(j, u));
        }
    }
    assert(cut.unmark(tn) == cut) by {
        reveal(Model::consistent);
        assert(cut.unmark(tn).finality =~= cut.finality);
        assert(cut.unmark(tn).psi =~= cut.psi);
    }
    assert forall|u: Seq<char>| #[trigger] cut.accepts(u)
        <==> (o.accepts(u) && u != o.min_except) by {
        assert(cut.reads(u) <==> (o.reads(u) && !o.in_tail(j, u)));
        if o.in_tail(j, u) && u != o.min_except {
            let k = u.len() as int;
            assert(!o.is_divergent(o.path_state(k)));
            assert(o.state_after(u) == o.path_state(k));
        }
        if u == o.min_except {
            assert(o.in_tail(j, u));
        }
        if cut.reads(u) {
            assert(cut.output(u) == o.output(u));
            assert(cut.accepts(u) == o.accepts(u));
        }
    }
    assert forall|u: Seq<char>| cut.accepts(u) implies #[trigger] cut.output(u) == o.output(u) by {
        assert(cut.reads(u));
    }
}

/// Taking a word out of the language of a minimal transducer that holds
/// another word can be done and gives a sound transducer, which accepts what
/// the transducer accepted but that word, and emits for it what it emitted.
pub proof fn lemma_without_word(m: Model, word: Seq<char>)
    requires
        m.minimal(),
        m.removable(word),
        m.max_state() + word.len() <= usize::MAX,
    ensures
        m.can_increase_along(word, word.len()),
        m.increase_except_from_epsilon_to_word(word).reads(word),
        !has_row(
            m.increase_except_from_epsilon_to_word(word).delta,
            m.increase_except_from_epsilon_to_word(word).state_after(word),
        ) ==> {
            let opened = m.increase_except_from_epsilon_to_word(word);
            &&& opened.reached_privately(opened.state_after(word))
            &&& opened.prev_divergent_state(opened.state_after(word)) is Some
            &&& Model::can_delete_back(
                opened.state_sequence(word),
                word.len(),
                opened.prev_divergent_state(opened.state_after(word)).unwrap().1,
            )
        },
        m.without_word(word).sound(),
        forall|u: Seq<char>| #[trigger] m.without_word(word).accepts(u)
            <==> (m.accepts(u) && u != word),
        forall|u: Seq<char>|
            m.without_word(word).accepts(u)
                ==> #[trigger] m.without_word(word).output(u) == m.output(u),
        forall|x: usize| #[trigger]
            m.without_word(word).states.contains(x) ==> x <= m.max_state() + word.len(),
        m.tidy() ==> m.without_word(word).alive() && m.without_word(word).early_but(
            m.without_word(word).last_state(),
        ),
{
    let n = word.len();
    lemma_increase_along(m, word, n);
    if m.tidy() {
        lemma_increase_along_tidy(m, word, n);
    }
    assert(word.take(n as int) =~= word);
    let o = m.increase_except_from_epsilon_to_word(word);
    let tn = o.state_after(word);
    assert(tn == o.last_state());
    let plain = m.without_word(word);
    assert(o.reads(word) == m.reads(word));
    assert(o.accepts(word));
    assert(o.consistent() && o.reads(o.min_except)) by {
        reveal(Model::private_path);
    }
    lemma_last_state_bound(o);
    if has_row(o.delta, tn) {
        lemma_unmark_last(o);
        assert(plain == o.unmark(tn));
        if m.tidy() {
            lemma_unmark_tidy(o);
            assert(plain.last_state() == tn) by {
                lemma_run_same_delta(o, plain, 0, word);
            }
        }
    } else {
        lemma_increase_along_ends(m, word, n, word);
        let p = choose|p: int| m.branches_before(word, p);
        lemma_run_prefix(m, 0, word, p);
        lemma_increase_along_ends(m, word, n, word.take(p));
        lemma_without_tail(o, p);
        assert(plain == o.without_tail());
    }
    assert forall|u: Seq<char>| #[trigger] plain.accepts(u) <==> (m.accepts(u) && u != word) by {
        assert(o.reads(u) == m.reads(u));
        assert(plain.accepts(u) <==> (o.accepts(u) && u != o.min_except));
    }
    assert forall|u: Seq<char>| plain.accepts(u)
        implies #[trigger] plain.output(u) == m.output(u) by {
        assert(o.reads(u) == m.reads(u));
        assert(plain.accepts(u) <==> (o.accepts(u) && u != o.min_except));
    }
}

/// Deleting a word from a minimal transducer that holds another word can be
/// done and gives a minimal transducer. It accepts the words that the
/// transducer accepted, but the deleted one, and emits for each of them what
/// the transducer emitted.
pub proof fn lemma_remove_entry_with_word(m: Model, word: Seq<char>)
    requires
        m.minimal(),
        m.removable(word),
        m.max_state() + word.len() <= usize::MAX,
    ensures
        m.can_remove(word),
        m.remove_entry_with_word(word).minimal(),
        forall|u: Seq<char>| #[trigger]
            m.remove_entry_with_word(word).accepts(u) <==> (m.accepts(u) && u != word),
        forall|u: Seq<char>|
            m.remove_entry_with_word(word).accepts(u) ==> #[trigger] m.remove_entry_with_word(
                word,
            ).output(u) == m.output(u),
        m.tidy() ==> m.remove_entry_with_word(word).tidy(),
        m.remove_entry_with_word(word).max_state() <= m.max_state() + word.len(),
{
    lemma_without_word(m, word);
    let plain = m.without_word(word);
    lemma_canonicalise(plain);
    let c = plain.canonicalise_min_except();
    lemma_reduce_to_epsilon(c);
    assert(c.max_state() <= m.max_state() + word.len()) by {
        reveal(Model::consistent);
        lemma_greatest_exists(c.states, 0);
        assert(plain.states.contains(c.max_state()));
    }
    if m.tidy() {
        lemma_reduce_to_epsilon_tidy(c);
    }
    let r = m.remove_entry_with_word(word);
    assert(r == c.reduce_to_epsilon());
    assert forall|u: Seq<char>| #[trigger] r.accepts(u) <==> (m.accepts(u) && u != word) by {
        assert(c.reads(u) == r.reads(u));
        assert(c.accepts(u) == plain.accepts(u));
        assert(plain.accepts(u) <==> (m.accepts(u) && u != word));
    }
    assert forall|u: Seq<char>| r.accepts(u) implies #[trigger] r.output(u) == m.output(u) by {
        assert(c.reads(u) == r.reads(u));
        assert(c.accepts(u) == plain.accepts(u));
        assert(plain.accepts(u) <==> (m.accepts(u) && u != word));
        assert(c.output(u) == plain.output(u));
        assert(plain.output(u) == m.output(u));
    }
}

} // verus!
