//! Laying the path along a word keeps the transducer sound and leaves what it
//! computes alone.

use crate::insertion::{has_row, lemma_readable_len, lower, readable_len};
use crate::model::{
    lemma_reduce_by_iota, lemma_run_empty, lemma_run_last, lemma_run_prefix,
    lemma_run_same_delta, lemma_run_step, Model, SignatureView,
};
use crate::proofs::addition::{lemma_add_entry_in_order, lemma_last_state_bound};
use crate::proofs::earliest::{
    lemma_add_entry_in_order_tidy, lemma_increase_along_tidy, lemma_reduce_to_epsilon_tidy,
};
use crate::proofs::paths::{
    image, lemma_enters_path, lemma_path_distinct, lemma_path_steps, lemma_simulation, simulates,
    step_ok,
};
use crate::proofs::rooted::{lemma_add_entry_in_order_rooted, lemma_reduce_to_epsilon};
use crate::utils::{is_common_prefix_len, lemma_common_prefix_len_unique};
use crate::wellformed::{equivalent, lemma_equivalent_trans, lemma_ranked_acyclic, lemma_ranked_sub};
use vstd::prelude::*;

verus! {

impl Model {
    /// The state that the path enters next on `c`.
    pub open spec fn next_state(self, c: char) -> usize {
        self.delta[(self.last_state(), c)]
    }

    /// The new state that a copy gets.
    pub open spec fn fresh_state(self) -> usize {
        (self.max_state() + 1) as usize
    }

    /// The model after the path has been made one label longer.
    pub open spec fn opened(self, c: char) -> Model {
        self.increase_step(self.last_state(), c).0
    }
}

/// The state that a state of the longer path stands for in the old transducer:
/// the copy stands for the state that it was copied from.
pub open spec fn copied_from(fresh: usize, next: usize) -> spec_fn(usize) -> usize {
    |x: usize|
        if x == fresh {
            next
        } else {
            x
        }
}

/// What holds where the path is to be made one label longer.
pub proof fn lemma_next_state(a: Model, c: char)
    requires
        a.sound(),
        a.delta.contains_key((a.last_state(), c)),
        a.max_state() < usize::MAX,
    ensures
        a.last_state() == a.path_state(a.min_except.len() as int),
        a.states.contains(a.last_state()),
        a.on_path(a.last_state()),
        a.states.contains(a.next_state(c)),
        !a.on_path(a.next_state(c)),
        a.next_state(c) != 0,
        a.next_state(c) != a.last_state(),
        !a.states.contains(a.fresh_state()),
        a.fresh_state() != 0,
        a.fresh_state() == a.max_state() + 1,
        forall|x: usize| #[trigger] a.states.contains(x) ==> x <= a.max_state(),
        a.has_outputs_at(a.next_state(c)),
        a.registered(a.next_state(c)),
{
    reveal(Model::consistent);
    reveal(Model::private_path);
    reveal(Model::index_exact);
    let n = a.min_except.len() as int;
    assert(a.min_except.take(n) =~= a.min_except);
    lemma_path_steps(a, n);
    lemma_last_state_bound(a);
    let next = a.next_state(c);
    let key = (a.last_state(), c);
    if a.on_path(next) {
        let i = choose|i: int| 0 <= i <= a.min_except.len() && #[trigger] a.path_state(i) == next;
        lemma_enters_path(a, key, i);
        lemma_path_steps(a, i - 1);
        lemma_path_distinct(a, i - 1, n);
    }
    assert(a.path_state(n) == a.last_state());
}

/// Making the path longer by a state that only the path enters keeps the
/// transducer sound and leaves what it computes alone.
pub proof fn lemma_open_plain(a: Model, c: char)
    requires
        a.sound(),
        a.delta.contains_key((a.last_state(), c)),
        a.max_state() < usize::MAX,
        !a.is_convergent(a.next_state(c)),
    ensures
        a.opened(c).sound(),
        a.opened(c).last_state() == a.next_state(c),
        a.opened(c).states == a.states,
        equivalent(a, a.opened(c)),
{
    lemma_next_state(a, c);
    reveal(Model::consistent);
    reveal(Model::private_path);
    reveal(Model::index_exact);
    reveal(Model::fits);
    reveal(Model::accessible);
    let r = a.opened(c);
    let n = a.min_except.len() as int;
    let cur = a.last_state();
    let next = a.next_state(c);
    assert forall|w: Seq<char>|
        #![trigger a.reads(w)]
        #![trigger r.reads(w)]
        {
            &&& a.reads(w) == r.reads(w)
            &&& a.reads(w) ==> a.output(w) == r.output(w) && a.accepts(w) == r.accepts(w)
        } by {
        lemma_run_same_delta(a, r, 0, w);
    }
    assert forall|i: int| 0 <= i <= n implies #[trigger] r.path_state(i) == a.path_state(i) by {
        assert(r.min_except.take(i) =~= a.min_except.take(i));
        lemma_run_same_delta(a, r, 0, a.min_except.take(i));
    }
    assert(r.min_except.take(n + 1) =~= r.min_except);
    assert(r.min_except.take(n) =~= a.min_except);
    lemma_run_step(r, 0, r.min_except, n);
    lemma_run_same_delta(a, r, 0, a.min_except);
    assert(r.path_state(n + 1) == next);
    assert forall|k: (usize, char), i: int|
        #![trigger r.delta.contains_key(k), r.path_state(i)]
        r.delta.contains_key(k) && 1 <= i <= r.min_except.len()
            && r.delta[k] == r.path_state(i) implies k == (
        r.state_after(r.min_except.take(i - 1)),
        r.min_except[i - 1],
    ) by {
        assert(r.path_state(i - 1) == a.path_state(i - 1));
        if i <= n {
            assert(r.path_state(i) == a.path_state(i));
            lemma_enters_path(a, k, i);
        } else {
            assert(a.delta_inv.contains((next, k.1, k.0)));
            assert(a.delta_inv.contains((next, c, cur)));
        }
    }
    assert forall|x: usize| #[trigger] r.on_path(x) <==> (a.on_path(x) || x == next) by {
        if r.on_path(x) {
            let i = choose|i: int| 0 <= i <= r.min_except.len() && #[trigger] r.path_state(i) == x;
            if i <= n {
                assert(a.path_state(i) == x);
            }
        }
        if a.on_path(x) {
            let i = choose|i: int| 0 <= i <= a.min_except.len() && #[trigger] a.path_state(i) == x;
            assert(r.path_state(i) == x);
        }
        if x == next {
            assert(r.path_state(n + 1) == x);
        }
    }
    assert forall|x: usize| r.signature(x) == a.signature(x) by {
        assert(r.signature(x).transitions =~= a.signature(x).transitions);
    }
    assert forall|x: usize| #[trigger] r.states.contains(x) && !r.on_path(x)
        implies r.registered(x) by {
        assert(r.signature(x) == a.signature(x));
        assert(a.registered(x));
    }
    assert forall|s: SignatureView| #[trigger] r.index.contains_key(s) implies {
        &&& r.states.contains(r.index[s])
        &&& r.signature(r.index[s]) == s
        &&& !r.on_path(r.index[s])
    } by {
        assert(a.index.contains_key(s));
        assert(r.signature(r.index[s]) == a.signature(r.index[s]));
    }
    assert forall|u: Seq<char>| #[trigger] r.reads(u) implies r.output(u) <= usize::MAX by {
        assert(a.reads(u));
    }
    assert forall|x: usize| #[trigger] r.states.contains(x) implies r.reachable(x) by {
        assert(a.reachable(x));
        let u = choose|u: Seq<char>| a.run(0, u) == Some(x);
        lemma_run_same_delta(a, r, 0, u);
    }
    lemma_ranked_sub(a, r);
}

/// The model after a state has been copied for the path, written out.
pub proof fn lemma_copy_result(a: Model, c: char)
    requires
        a.sound(),
        a.delta.contains_key((a.last_state(), c)),
        a.max_state() < usize::MAX,
        a.is_convergent(a.next_state(c)),
    ensures
        a.opened(c).alphabet == a.alphabet,
        a.opened(c).states == a.states.insert(a.fresh_state()),
        a.opened(c).iota == a.iota,
        a.opened(c).index == a.index,
        a.opened(c).min_except == a.min_except.push(c),
        a.opened(c).finality == (if a.finality.contains(a.next_state(c)) {
            a.finality.insert(a.fresh_state())
        } else {
            a.finality
        }),
        a.opened(c).psi == (if a.finality.contains(a.next_state(c)) {
            a.psi.insert(a.fresh_state(), a.psi[a.next_state(c)])
        } else {
            a.psi
        }),
        a.opened(c).delta == Map::new(
            |k: (usize, char)|
                a.delta.contains_key(k) || (k.0 == a.fresh_state() && a.delta.contains_key(
                    (a.next_state(c), k.1),
                )),
            |k: (usize, char)|
                if k.0 == a.fresh_state() {
                    a.delta[(a.next_state(c), k.1)]
                } else if k == (a.last_state(), c) {
                    a.fresh_state()
                } else {
                    a.delta[k]
                },
        ),
        a.opened(c).lambda == Map::new(
            |k: (usize, char)|
                a.lambda.contains_key(k) || (k.0 == a.fresh_state() && a.lambda.contains_key(
                    (a.next_state(c), k.1),
                )),
            |k: (usize, char)|
                if k.0 == a.fresh_state() {
                    a.lambda[(a.next_state(c), k.1)]
                } else {
                    a.lambda[k]
                },
        ),
        a.opened(c).delta_inv == Set::new(
            |e: (usize, char, usize)|
                (a.delta_inv.contains(e) && e != (a.next_state(c), c, a.last_state())) || e == (
                    a.fresh_state(),
                    c,
                    a.last_state(),
                ) || (e.2 == a.fresh_state() && a.delta.contains_key((a.next_state(c), e.1))
                    && a.delta[(a.next_state(c), e.1)] == e.0),
        ),
{
    lemma_next_state(a, c);
    reveal(Model::consistent);
    let r = a.opened(c);
    let cur = a.last_state();
    let next = a.next_state(c);
    let fresh = a.fresh_state();
    assert forall|k: (usize, char)| a.delta.contains_key(k) implies k.0 != fresh by {
        assert(a.states.contains(k.0));
    }
    assert forall|k: (usize, char)| a.lambda.contains_key(k) implies k.0 != fresh by {
        assert(a.delta.contains_key(k));
    }
    assert(r.delta =~= Map::new(
        |k: (usize, char)|
            a.delta.contains_key(k) || (k.0 == fresh && a.delta.contains_key((next, k.1))),
        |k: (usize, char)|
            if k.0 == fresh {
                a.delta[(next, k.1)]
            } else if k == (cur, c) {
                fresh
            } else {
                a.delta[k]
            },
    ));
    assert(r.delta_inv =~= Set::new(
        |e: (usize, char, usize)|
            (a.delta_inv.contains(e)
                && e != (next, c, cur)) || e == (fresh, c, cur) || (e.2 == fresh
                && a.delta.contains_key((next, e.1)) && a.delta[(next, e.1)] == e.0),
    ));
    assert(r.lambda =~= Map::new(
        |k: (usize, char)|
            a.lambda.contains_key(k) || (k.0 == fresh && a.lambda.contains_key((next, k.1))),
        |k: (usize, char)|
            if k.0 == fresh {
                a.lambda[(next, k.1)]
            } else {
                a.lambda[k]
            },
    )) by {
        if !has_row(a.lambda, next) {
            assert forall|x: char| !a.lambda.contains_key((next, x)) by {
                if a.lambda.contains_key((next, x)) {
                    assert(has_row(a.lambda, next));
                }
            }
        }
    }
}

/// After a copy the transducer does from the copy what it did from the copied
/// state, and from every other state what it did before.
pub proof fn lemma_copy_simulates(a: Model, c: char)
    requires
        a.sound(),
        a.delta.contains_key((a.last_state(), c)),
        a.max_state() < usize::MAX,
        a.is_convergent(a.next_state(c)),
    ensures
        simulates(a.opened(c), a, copied_from(a.fresh_state(), a.next_state(c))),
{
    lemma_next_state(a, c);
    lemma_copy_result(a, c);
    reveal(Model::consistent);
    let r = a.opened(c);
    let cur = a.last_state();
    let next = a.next_state(c);
    let fresh = a.fresh_state();
    let psi = copied_from(fresh, next);
    assert forall|x: usize, ch: char| #[trigger] step_ok(r, a, psi, x, ch) by {
        if x == fresh {
            if a.delta.contains_key((fresh, ch)) {
                assert(a.states.contains(fresh));
            }
            if a.delta.contains_key((next, ch)) {
                assert(a.states.contains(a.delta[(next, ch)]));
                assert(a.lambda.contains_key((next, ch)));
            } else {
                if a.lambda.contains_key((next, ch)) {
                    assert(a.delta.contains_key((next, ch)));
                }
                if a.lambda.contains_key((fresh, ch)) {
                    assert(a.delta.contains_key((fresh, ch)));
                }
            }
        } else {
            if a.delta.contains_key((x, ch)) {
                assert(a.states.contains(a.delta[(x, ch)]));
                assert(a.lambda.contains_key((x, ch)));
            } else {
                if a.lambda.contains_key((x, ch)) {
                    assert(a.delta.contains_key((x, ch)));
                }
            }
        }
    }
}

/// After a copy every word is read as before, but that the copy may stand
/// where the copied state stood.
pub proof fn lemma_copy_runs(a: Model, c: char, x: usize, w: Seq<char>)
    requires
        a.sound(),
        a.delta.contains_key((a.last_state(), c)),
        a.max_state() < usize::MAX,
        a.is_convergent(a.next_state(c)),
    ensures
        a.run(copied_from(a.fresh_state(), a.next_state(c))(x), w) == image(
            copied_from(a.fresh_state(), a.next_state(c)),
            a.opened(c).run(x, w),
        ),
        a.weight(copied_from(a.fresh_state(), a.next_state(c))(x), w) == a.opened(c).weight(x, w),
{
    lemma_copy_simulates(a, c);
    lemma_simulation(a.opened(c), a, copied_from(a.fresh_state(), a.next_state(c)), x, w);
}

/// A copy leaves what the transducer computes alone.
pub proof fn lemma_copy_equivalent(a: Model, c: char)
    requires
        a.sound(),
        a.delta.contains_key((a.last_state(), c)),
        a.max_state() < usize::MAX,
        a.is_convergent(a.next_state(c)),
    ensures
        equivalent(a, a.opened(c)),
{
    lemma_next_state(a, c);
    lemma_copy_result(a, c);
    reveal(Model::consistent);
    let r = a.opened(c);
    assert forall|w: Seq<char>|
        #![trigger a.reads(w)]
        #![trigger r.reads(w)]
        {
            &&& a.reads(w) == r.reads(w)
            &&& a.reads(w) ==> a.output(w) == r.output(w) && a.accepts(w) == r.accepts(w)
        } by {
        lemma_copy_runs(a, c, 0, w);
        let next = a.next_state(c);
        if a.psi.contains_key(next) {
            assert(a.finality.contains(next));
        }
        if a.finality.contains(next) {
            assert(a.psi.contains_key(next));
        }
        if a.psi.contains_key(a.fresh_state()) {
            assert(a.finality.contains(a.fresh_state()));
        }
        if a.finality.contains(a.fresh_state()) {
            assert(a.states.contains(a.fresh_state()));
        }
    }
}

/// A copy keeps the store consistent.
pub proof fn lemma_copy_consistent(a: Model, c: char)
    requires
        a.sound(),
        a.delta.contains_key((a.last_state(), c)),
        a.max_state() < usize::MAX,
        a.is_convergent(a.next_state(c)),
    ensures
        a.opened(c).consistent(),
{
    lemma_next_state(a, c);
    lemma_copy_result(a, c);
    reveal(Model::consistent);
    let r = a.opened(c);
    let cur = a.last_state();
    let next = a.next_state(c);
    let fresh = a.fresh_state();
    assert forall|k: (usize, char)| #[trigger] r.delta.contains_key(k) implies {
        &&& r.lambda.contains_key(k)
        &&& r.states.contains(k.0)
        &&& r.states.contains(r.delta[k])
        &&& r.alphabet.contains(k.1)
        &&& r.delta[k] != 0
        &&& r.delta_inv.contains((r.delta[k], k.1, k.0))
    } by {
        if k.0 == fresh {
            if a.delta.contains_key(k) {
                assert(a.states.contains(fresh));
            }
            assert(a.delta.contains_key((next, k.1)));
            assert(a.lambda.contains_key((next, k.1)));
        } else {
            assert(a.delta.contains_key(k));
            if k != (cur, c) {
                assert(a.delta_inv.contains((a.delta[k], k.1, k.0)));
            }
        }
    }
    assert forall|k: (usize, char)| #[trigger] r.lambda.contains_key(k)
        implies r.delta.contains_key(k) by {
        if k.0 == fresh {
            if a.lambda.contains_key(k) {
                assert(a.delta.contains_key(k));
                assert(a.states.contains(fresh));
            }
            assert(a.lambda.contains_key((next, k.1)));
            assert(a.delta.contains_key((next, k.1)));
        } else {
            assert(a.lambda.contains_key(k));
        }
    }
    assert forall|e: (usize, char, usize)| #[trigger] r.delta_inv.contains(e)
        implies r.delta.contains_key(
        (e.2, e.1),
    ) && r.delta[(e.2, e.1)] == e.0 by {
        if a.delta_inv.contains(e) && e != (next, c, cur) {
            assert(a.delta.contains_key((e.2, e.1)));
            assert(a.states.contains(e.2));
        }
    }
    assert forall|q: usize| #[trigger] r.psi.contains_key(q) implies r.finality.contains(q) by {
        if q != fresh {
            assert(a.psi.contains_key(q));
        }
    }
    assert forall|q: usize| #[trigger] r.finality.contains(q) implies r.psi.contains_key(q)
        && r.states.contains(q) by {
        if q != fresh {
            assert(a.finality.contains(q));
        } else {
            if a.finality.contains(fresh) {
                assert(a.states.contains(fresh));
            }
        }
    }
}

/// A copy keeps the path private, one state longer.
pub proof fn lemma_copy_path(a: Model, c: char)
    requires
        a.sound(),
        a.delta.contains_key((a.last_state(), c)),
        a.max_state() < usize::MAX,
        a.is_convergent(a.next_state(c)),
    ensures
        a.opened(c).private_path(),
        a.opened(c).last_state() == a.fresh_state(),
        forall|x: usize| #[trigger] a.opened(c).on_path(x)
            <==> (a.on_path(x) || x == a.fresh_state()),
{
    lemma_next_state(a, c);
    lemma_copy_result(a, c);
    reveal(Model::consistent);
    reveal(Model::private_path);
    let r = a.opened(c);
    let n = a.min_except.len() as int;
    let cur = a.last_state();
    let next = a.next_state(c);
    let fresh = a.fresh_state();
    assert forall|i: int| 0 <= i <= n
        implies #[trigger] r.path_state(i) == a.path_state(i) && r.run(
        0,
        r.min_except.take(i),
    ) is Some by {
        assert(r.min_except.take(i) =~= a.min_except.take(i));
        lemma_copy_runs(a, c, 0, a.min_except.take(i));
        lemma_path_steps(a, i);
        assert(a.on_path(a.path_state(i)));
    }
    assert(r.min_except.take(n + 1) =~= r.min_except);
    assert(r.min_except.take(n) =~= a.min_except);
    lemma_run_step(r, 0, r.min_except, n);
    assert(r.path_state(n) == cur);
    assert(r.path_state(n + 1) == fresh);
    assert forall|k: (usize, char), i: int|
        #![trigger r.delta.contains_key(k), r.path_state(i)]
        r.delta.contains_key(k) && 1 <= i <= r.min_except.len()
            && r.delta[k] == r.path_state(i) implies k == (
        r.state_after(r.min_except.take(i - 1)),
        r.min_except[i - 1],
    ) by {
        assert(r.path_state(i - 1) == a.path_state(i - 1));
        if i <= n {
            assert(r.path_state(i) == a.path_state(i));
            lemma_path_steps(a, i);
            if k.0 == fresh {
                lemma_enters_path(a, (next, k.1), i);
                assert(a.on_path(a.path_state(i - 1)));
            } else {
                assert(a.states.contains(a.path_state(i)));
                lemma_enters_path(a, k, i);
            }
        } else {
            if k.0 == fresh {
                assert(a.states.contains(a.delta[(next, k.1)]));
            } else if k != (cur, c) {
                assert(a.states.contains(a.delta[k]));
            }
        }
    }
    assert forall|x: usize| #[trigger] r.on_path(x) <==> (a.on_path(x) || x == fresh) by {
        if r.on_path(x) {
            let i = choose|i: int| 0 <= i <= r.min_except.len() && #[trigger] r.path_state(i) == x;
            if i <= n {
                assert(a.path_state(i) == x);
            }
        }
        if a.on_path(x) {
            let i = choose|i: int| 0 <= i <= a.min_except.len() && #[trigger] a.path_state(i) == x;
            assert(r.path_state(i) == x);
        }
        if x == fresh {
            assert(r.path_state(n + 1) == x);
        }
    }
}

/// A copy keeps the index exact.
pub proof fn lemma_copy_index(a: Model, c: char)
    requires
        a.sound(),
        a.delta.contains_key((a.last_state(), c)),
        a.max_state() < usize::MAX,
        a.is_convergent(a.next_state(c)),
    ensures
        a.opened(c).index_exact(),
{
    lemma_next_state(a, c);
    lemma_copy_result(a, c);
    lemma_copy_path(a, c);
    reveal(Model::consistent);
    reveal(Model::index_exact);
    let r = a.opened(c);
    let fresh = a.fresh_state();
    assert forall|x: usize| a.states.contains(x) && !a.on_path(x)
        implies r.signature(x) == a.signature(x) by {
        assert(r.signature(x).transitions =~= a.signature(x).transitions);
        if a.psi.contains_key(fresh) {
            assert(a.finality.contains(fresh));
        }
    }
    assert forall|x: usize| #[trigger] r.states.contains(x) && !r.on_path(x)
        implies r.registered(x) by {
        assert(a.registered(x));
    }
    assert forall|s: SignatureView| #[trigger] r.index.contains_key(s) implies {
        &&& r.states.contains(r.index[s])
        &&& r.signature(r.index[s]) == s
        &&& !r.on_path(r.index[s])
    } by {
        assert(a.index.contains_key(s));
    }
}

/// A copy keeps the transducer rooted.
pub proof fn lemma_copy_rooted(a: Model, c: char)
    requires
        a.sound(),
        a.delta.contains_key((a.last_state(), c)),
        a.max_state() < usize::MAX,
        a.is_convergent(a.next_state(c)),
    ensures
        a.opened(c).rooted(),
{
    lemma_next_state(a, c);
    lemma_copy_result(a, c);
    lemma_copy_path(a, c);
    reveal(Model::consistent);
    reveal(Model::accessible);
    reveal(Model::private_path);
    let r = a.opened(c);
    let cur = a.last_state();
    let next = a.next_state(c);
    let fresh = a.fresh_state();
    let n = a.min_except.len() as int;
    lemma_ranked_acyclic(a);
    reveal(Model::acyclic);
    assert(r.ranked()) by {
        reveal(Model::ranked);
        let rank = choose|rank: spec_fn(usize) -> nat| a.ranks(rank);
        let copied = |x: usize|
            if x == fresh {
                rank(next)
            } else {
                rank(x)
            };
        assert forall|k: (usize, char)| #[trigger] r.delta.contains_key(k)
            implies copied(k.0) > copied(
            r.delta[k],
        ) by {
            if k.0 == fresh {
                assert(a.delta.contains_key((next, k.1)));
                assert(a.states.contains(a.delta[(next, k.1)]));
            } else {
                assert(a.delta.contains_key(k));
                assert(a.states.contains(a.delta[k]));
            }
        }
        assert(r.ranks(copied));
    }
    assert forall|x: usize| #[trigger] r.states.contains(x) implies r.reachable(x) by {
        if x == fresh {
            assert(r.min_except.take(n + 1) =~= r.min_except);
            assert(r.run(0, r.min_except) == Some(fresh));
        } else {
            assert(a.reachable(x));
            let u = choose|u: Seq<char>| a.run(0, u) == Some(x);
            lemma_copy_runs(a, c, 0, u);
            if r.run(0, u) != Some(x) {
                assert(r.run(0, u) == Some(fresh));
                assert(x == next);
                let (c1, s1, c2, s2) = choose|c1: char, s1: usize, c2: char, s2: usize|
                    (c1, s1) != (c2, s2) && a.delta_inv.contains((next, c1, s1))
                        && a.delta_inv.contains((next, c2, s2));
                let other = if (c1, s1) != (c, cur) {
                    (c1, s1)
                } else {
                    (c2, s2)
                };
                assert(a.delta_inv.contains((next, other.0, other.1)));
                let key = (other.1, other.0);
                assert(a.delta.contains_key(key) && a.delta[key] == next);
                assert(a.states.contains(other.1));
                assert(a.reachable(other.1));
                let v = choose|v: Seq<char>| a.run(0, v) == Some(other.1);
                lemma_copy_runs(a, c, 0, v);
                let full = v.push(other.0);
                assert(full.drop_last() =~= v);
                lemma_run_last(r, 0, full);
                if r.run(0, v) == Some(fresh) {
                    assert(other.1 == next);
                    let one = Seq::<char>::empty().push(other.0);
                    assert(one.drop_last() =~= Seq::<char>::empty());
                    lemma_run_last(a, next, one);
                    lemma_run_empty(a, next);
                    assert(a.run(next, one) == Some(next));
                } else {
                    assert(r.run(0, v) == Some(other.1));
                    assert(r.run(0, full) == Some(next));
                }
            }
        }
    }
}

/// Making the path one label longer leaves alone whether the state in which a
/// word ends is final, has a transition, or has more than one.
pub proof fn lemma_open_step_ends(a: Model, c: char, u: Seq<char>)
    requires
        a.sound(),
        a.delta.contains_key((a.last_state(), c)),
        a.max_state() < usize::MAX,
        a.reads(u),
    ensures
        a.opened(c).reads(u),
        a.opened(c).is_divergent(a.opened(c).state_after(u)) == a.is_divergent(a.state_after(u)),
        has_row(a.opened(c).delta, a.opened(c).state_after(u)) == has_row(a.delta,
            a.state_after(u)),
{
    lemma_next_state(a, c);
    let r = a.opened(c);
    if a.is_convergent(a.next_state(c)) {
        lemma_copy_result(a, c);
        lemma_copy_simulates(a, c);
        lemma_copy_runs(a, c, 0, u);
        reveal(Model::consistent);
        let psi = copied_from(a.fresh_state(), a.next_state(c));
        let x = r.state_after(u);
        let y = a.state_after(u);
        assert(psi(x) == y);
        assert forall|ch: char| r.delta.contains_key((x, ch)) == a.delta.contains_key((y, ch)) by {
            assert(step_ok(r, a, psi, x, ch));
        }
        assert(r.finality.contains(x) == a.finality.contains(y)) by {
            if a.finality.contains(a.fresh_state()) {
                assert(a.states.contains(a.fresh_state()));
            }
        }
        lemma_same_rows(r, x, a, y);
    } else {
        lemma_open_plain(a, c);
        lemma_run_same_delta(a, r, 0, u);
        lemma_same_rows(r, r.state_after(u), a, a.state_after(u));
    }
}

/// Two states with transitions on the same labels both have a transition or
/// none, and both have more than one or not.
pub proof fn lemma_same_rows(r: Model, x: usize, a: Model, y: usize)
    requires
        forall|ch: char| r.delta.contains_key((x, ch)) == a.delta.contains_key((y, ch)),
        r.finality.contains(x) == a.finality.contains(y),
    ensures
        r.is_divergent(x) == a.is_divergent(y),
        has_row(r.delta, x) == has_row(a.delta, y),
{
    if has_row(r.delta, x) {
        let ch = choose|ch: char| r.delta.contains_key((x, ch));
        assert(a.delta.contains_key((y, ch)));
    }
    if has_row(a.delta, y) {
        let ch = choose|ch: char| a.delta.contains_key((y, ch));
        assert(r.delta.contains_key((x, ch)));
    }
    if r.is_divergent(x) && !r.finality.contains(x) {
        let (c1, c2) = choose|c1: char, c2: char|
            c1 != c2 && r.delta.contains_key((x, c1)) && r.delta.contains_key((x, c2));
        assert(a.delta.contains_key((y, c1)) && a.delta.contains_key((y, c2)));
    }
    if a.is_divergent(y) && !a.finality.contains(y) {
        let (c1, c2) = choose|c1: char, c2: char|
            c1 != c2 && a.delta.contains_key((y, c1)) && a.delta.contains_key((y, c2));
        assert(r.delta.contains_key((x, c1)) && r.delta.contains_key((x, c2)));
    }
}

/// Making the path one label longer can be done, keeps the transducer sound
/// and leaves what it computes alone.
pub proof fn lemma_open_step(a: Model, c: char)
    requires
        a.sound(),
        a.delta.contains_key((a.last_state(), c)),
        a.max_state() < usize::MAX,
    ensures
        a.can_increase(a.last_state(), c),
        a.opened(c).sound(),
        a.opened(c).min_except == a.min_except.push(c),
        a.increase_step(a.last_state(), c).1 == a.opened(c).last_state(),
        equivalent(a, a.opened(c)),
        a.opened(c).max_state() <= a.max_state() + 1,
{
    lemma_next_state(a, c);
    let r = a.opened(c);
    if a.is_convergent(a.next_state(c)) {
        lemma_copy_result(a, c);
        lemma_copy_equivalent(a, c);
        lemma_copy_consistent(a, c);
        lemma_copy_path(a, c);
        lemma_copy_index(a, c);
        lemma_copy_rooted(a, c);
        assert(r.fits()) by {
            reveal(Model::fits);
            assert forall|u: Seq<char>| #[trigger] r.reads(u) implies r.output(u) <= usize::MAX by {
                assert(a.reads(u));
            }
        }
        assert(a.finality.contains(a.next_state(c)) ==> a.psi.contains_key(a.next_state(c))) by {
            reveal(Model::consistent);
        }
        assert(r.max_state() <= a.max_state() + 1) by {
            reveal(Model::private_path);
            lemma_last_state_bound(r);
            assert(r.states.contains(r.max_state()));
        }
    } else {
        lemma_open_plain(a, c);
    }
}

/// A minimal transducer whose initial state is taken from the index is sound.
pub proof fn lemma_unregister_root(m: Model)
    requires
        m.minimal(),
    ensures
        m.remove_signature(0).sound(),
        m.remove_signature(0).last_state() == 0,
        m.has_outputs_at(0),
        equivalent(m, m.remove_signature(0)),
        m.remove_signature(0).states == m.states,
{
    reveal(Model::consistent);
    reveal(Model::private_path);
    reveal(Model::index_exact);
    reveal(Model::fits);
    reveal(Model::accessible);
    let r = m.remove_signature(0);
    lemma_run_empty(r, 0);
    lemma_run_empty(m, 0);
    assert(r.min_except =~= Seq::<char>::empty());
    assert forall|w: Seq<char>|
        #![trigger m.reads(w)]
        #![trigger r.reads(w)]
        {
            &&& m.reads(w) == r.reads(w)
            &&& m.reads(w) ==> m.output(w) == r.output(w) && m.accepts(w) == r.accepts(w)
        } by {
        lemma_run_same_delta(m, r, 0, w);
    }
    assert forall|x: usize| r.signature(x) == m.signature(x) by {
        assert(r.signature(x).transitions =~= m.signature(x).transitions);
    }
    assert forall|x: usize| #[trigger] r.on_path(x) <==> x == 0 by {
        assert(r.min_except.take(0) =~= Seq::<char>::empty());
        if r.on_path(x) {
            let i = choose|i: int| 0 <= i <= r.min_except.len() && #[trigger] r.path_state(i) == x;
        }
        if x == 0 {
            assert(r.path_state(0) == 0);
        }
    }
    assert forall|x: usize| #[trigger] r.states.contains(x) && !r.on_path(x)
        implies r.registered(x) by {
        assert(r.signature(x) == m.signature(x));
        assert(r.signature(0) == m.signature(0));
        assert(m.registered(x));
        assert(m.registered(0));
    }
    assert forall|s: SignatureView| #[trigger] r.index.contains_key(s) implies {
        &&& r.states.contains(r.index[s])
        &&& r.signature(r.index[s]) == s
        &&& !r.on_path(r.index[s])
    } by {
        assert(m.index.contains_key(s));
        assert(r.signature(r.index[s]) == m.signature(r.index[s]));
        assert(r.signature(0) == m.signature(0));
    }
    assert forall|u: Seq<char>| #[trigger] r.reads(u) implies r.output(u) <= usize::MAX by {
        assert(m.reads(u));
    }
    assert forall|x: usize| #[trigger] r.states.contains(x) implies r.reachable(x) by {
        assert(m.reachable(x));
        let u = choose|u: Seq<char>| m.run(0, u) == Some(x);
        lemma_run_same_delta(m, r, 0, u);
    }
    lemma_ranked_sub(m, r);
}

/// Laying the path along the first `i` labels of a word that a minimal
/// transducer reads can be done, makes the transducer sound with the path
/// along those labels, and leaves what it computes alone.
pub proof fn lemma_increase_along(m: Model, word: Seq<char>, i: nat)
    requires
        m.minimal(),
        m.reads(word),
        i <= word.len(),
        m.max_state() + word.len() <= usize::MAX,
    ensures
        m.can_increase_along(word, i),
        m.increase_along(word, i).0.sound(),
        m.increase_along(word, i).0.min_except == word.take(i as int),
        m.increase_along(word, i).1 == m.increase_along(word, i).0.last_state(),
        equivalent(m, m.increase_along(word, i).0),
        m.increase_along(word, i).0.max_state() <= m.max_state() + i,
    decreases i,
{
    if i == 0 {
        lemma_unregister_root(m);
        assert(word.take(0) =~= Seq::<char>::empty());
        assert(m.states.contains(0)) by {
            reveal(Model::consistent);
        }
    } else {
        lemma_increase_along(m, word, (i - 1) as nat);
        let a = m.increase_along(word, (i - 1) as nat).0;
        let c = word[i - 1];
        assert(a.delta.contains_key((a.last_state(), c))) by {
            lemma_run_prefix(m, 0, word, i as int);
            assert(a.reads(word.take(i as int)) == m.reads(word.take(i as int)));
            lemma_run_step(a, 0, word, i - 1);
        }
        lemma_open_step(a, c);
        lemma_equivalent_trans(m, a, a.opened(c));
        assert(word.take(i as int) =~= word.take(i - 1).push(c));
    }
}

/// Laying the path along a word leaves alone whether the state in which a word
/// ends is final, has a transition, or has more than one.
pub proof fn lemma_increase_along_ends(m: Model, word: Seq<char>, i: nat, u: Seq<char>)
    requires
        m.minimal(),
        m.reads(word),
        i <= word.len(),
        m.max_state() + word.len() <= usize::MAX,
        m.reads(u),
    ensures
        m.increase_along(word, i).0.reads(u),
        m.increase_along(word, i).0.is_divergent(m.increase_along(word, i).0.state_after(u))
            == m.is_divergent(m.state_after(u)),
        has_row(m.increase_along(word, i).0.delta, m.increase_along(word, i).0.state_after(u))
            == has_row(m.delta, m.state_after(u)),
    decreases i,
{
    if i == 0 {
        lemma_unregister_root(m);
        let r = m.remove_signature(0);
        lemma_run_same_delta(m, r, 0, u);
        lemma_same_rows(r, r.state_after(u), m, m.state_after(u));
    } else {
        lemma_increase_along_ends(m, word, (i - 1) as nat, u);
        lemma_increase_along(m, word, (i - 1) as nat);
        let a = m.increase_along(word, (i - 1) as nat).0;
        let c = word[i - 1];
        assert(a.delta.contains_key((a.last_state(), c))) by {
            lemma_run_prefix(m, 0, word, i as int);
            assert(a.reads(word.take(i as int)) == m.reads(word.take(i as int)));
            lemma_run_step(a, 0, word, i - 1);
        }
        lemma_open_step_ends(a, c, u);
    }
}

/// Inserting a word into a minimal transducer, wherever the word stands among
/// the entries so far, can be done and gives a minimal transducer. It accepts
/// the words that the transducer accepted, and the inserted word; it emits the
/// given output for the inserted word, and for every other word of the
/// dictionary, but the empty one, what the transducer emitted before.
pub proof fn lemma_add_entry_out_of_order(m: Model, w: Seq<char>, out: usize)
    requires
        m.minimal(),
        m.max_state() + w.len() <= usize::MAX,
    ensures
        m.can_add_out_of_order(w, out),
        m.add_entry_out_of_order(w, out).minimal(),
        m.add_entry_out_of_order(w, out).output(w) == out,
        forall|u: Seq<char>| #[trigger]
            m.add_entry_out_of_order(w, out).accepts(u) <==> (m.accepts(u) || u == w),
        forall|u: Seq<char>|
            m.accepts(u) && u != w && u.len() > 0
                ==> #[trigger] m.add_entry_out_of_order(w, out).output(
                u,
            ) == m.output(u),
        m.add_entry_out_of_order(w, out).max_state() <= m.max_state() + w.len(),
        m.tidy() && !m.accepts(w) ==> m.add_entry_out_of_order(w, out).tidy(),
        m.add_entry_out_of_order(w, out).iota == lower(m.iota as nat, out as nat),
        m.accepts(Seq::empty()) && w.len() > 0
            ==> m.add_entry_out_of_order(w, out).output(Seq::empty()) + m.iota
            == m.output(Seq::empty()) + m.add_entry_out_of_order(w, out).iota,
{
    lemma_readable_len(m, w);
    let j = readable_len(m, w);
    let p = w.take(j as int);
    lemma_increase_along(m, p, j);
    assert(p.take(j as int) =~= p);
    let a = m.increase_except_from_epsilon_to_word(p);
    assert(is_common_prefix_len(p, w, j));
    lemma_common_prefix_len_unique(p, w, j);
    assert(a.insertable(w)) by {
        if j < w.len() {
            assert(a.reads(w.take(j as int + 1)) == m.reads(w.take(j as int + 1)));
            if a.delta.contains_key((a.state_after(w.take(j as int)), w[j as int])) {
                lemma_run_step(a, 0, w, j as int);
                assert(a.reads(p));
            }
        }
    }
    lemma_add_entry_in_order(a, w, out);
    lemma_add_entry_in_order_rooted(a, w, out);
    let b = a.add_entry_in_order(w, out);
    lemma_reduce_to_epsilon(b);
    if m.tidy() && !m.accepts(w) {
        lemma_increase_along_tidy(m, p, j);
        assert(m.reads(w) == a.reads(w));
        lemma_add_entry_in_order_tidy(a, w, out);
        lemma_reduce_to_epsilon_tidy(b);
    }
    let r = m.add_entry_out_of_order(w, out);
    assert forall|u: Seq<char>| #[trigger] r.accepts(u) <==> (m.accepts(u) || u == w) by {
        assert(b.reads(u) == r.reads(u));
        assert(m.reads(u) == a.reads(u));
        assert(b.accepts(u) <==> (a.accepts(u) || u == w));
    }
    assert forall|u: Seq<char>| m.accepts(u) && u != w && u.len() > 0 implies #[trigger] r.output(u)
        == m.output(u) by {
        assert(m.reads(u) == a.reads(u));
        assert(a.accepts(u));
        assert(b.output(u) == a.output(u));
        assert(b.accepts(u) <==> (a.accepts(u) || u == w));
        assert(b.reads(u) == r.reads(u));
    }
    assert(r.output(w) == out) by {
        assert(b.accepts(w) <==> (a.accepts(w) || w == w));
        assert(b.reads(w) == r.reads(w));
    }
    lemma_increase_along_iota(m, p, j);
    lemma_reduce_by_iota(b, b.min_except.len());
    if m.accepts(Seq::empty()) && w.len() > 0 {
        let e = Seq::<char>::empty();
        assert(m.reads(e) == a.reads(e));
        assert(a.accepts(e));
        assert(b.accepts(e) <==> (a.accepts(e) || e == w));
        assert(b.reads(e) == r.reads(e));
    }
}

/// Laying a path leaves the initial output alone.
pub proof fn lemma_increase_along_iota(m: Model, word: Seq<char>, i: nat)
    ensures
        m.increase_along(word, i).0.iota == m.iota,
    decreases i,
{
    if i > 0 {
        lemma_increase_along_iota(m, word, (i - 1) as nat);
    }
}

} // verus!
