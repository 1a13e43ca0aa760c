//! What replaying a log does to the bar values, and to a single scratch
//! region's holding, with the facts the generators' proofs rest on.

use vstd::prelude::*;
use crate::action::{Action, ActionKind};

verus! {

/// What one action does to the bar values: a `Swap` exchanges two bars, a
/// `Write` stores its carried value; every other kind leaves the values alone.
pub open spec fn apply_values(s: Seq<u32>, a: Action) -> Seq<u32> {
    match a.kind {
        ActionKind::Swap => if a.i < s.len() && a.j < s.len() {
            s.update(a.i as int, s[a.j as int]).update(a.j as int, s[a.i as int])
        } else {
            s
        },
        ActionKind::Write => if a.i < s.len() {
            s.update(a.i as int, a.value)
        } else {
            s
        },
        _ => s,
    }
}

/// The bar values after replaying `log` against `s`.
pub open spec fn replay(s: Seq<u32>, log: Seq<Action>) -> Seq<u32>
    decreases log.len(),
{
    if log.len() == 0 {
        s
    } else {
        apply_values(replay(s, log.drop_last()), log.last())
    }
}

pub proof fn lemma_replay_len(s: Seq<u32>, log: Seq<Action>)
    ensures
        replay(s, log).len() == s.len(),
    decreases log.len(),
{
    if log.len() > 0 {
        lemma_replay_len(s, log.drop_last());
    }
}

/// Replaying two logs one after the other is replaying their concatenation.
pub proof fn lemma_replay_concat(s: Seq<u32>, a: Seq<Action>, b: Seq<Action>)
    ensures
        replay(s, a + b) == replay(replay(s, a), b),
    decreases b.len(),
{
    if b.len() == 0 {
        assert(a + b =~= a);
    } else {
        assert((a + b).drop_last() =~= a + b.drop_last());
        lemma_replay_concat(s, a, b.drop_last());
    }
}


/// An action that never changes the bar values.
pub open spec fn inert(a: Action) -> bool {
    a.kind != ActionKind::Swap && a.kind != ActionKind::Write
}

/// A log whose actions all leave the bar values alone.
pub proof fn lemma_replay_inert(s: Seq<u32>, log: Seq<Action>)
    requires
        forall|k: int| 0 <= k < log.len() ==> inert(#[trigger] log[k]),
    ensures
        replay(s, log) == s,
    decreases log.len(),
{
    if log.len() > 0 {
        assert(inert(log[log.len() - 1]));
        lemma_replay_inert(s, log.drop_last());
    }
}

pub proof fn lemma_replay_one(s: Seq<u32>, a: Action)
    ensures
        replay(s, seq![a]) == apply_values(s, a),
{
    let l = seq![a];
    assert(l.drop_last() =~= Seq::<Action>::empty());
    assert(replay(s, l.drop_last()) == s);
    assert(l.last() == a);
}

pub proof fn lemma_replay_two(s: Seq<u32>, a: Action, b: Action)
    ensures
        replay(s, seq![a, b]) == apply_values(apply_values(s, a), b),
{
    let l = seq![a, b];
    assert(l.drop_last() =~= seq![a]);
    assert(l.last() == b);
    lemma_replay_one(s, a);
}


/// An action that at most exchanges two existing bars.
pub open spec fn conserving(a: Action, n: int) -> bool {
    inert(a) || (a.kind == ActionKind::Swap && a.i < n && a.j < n)
}

pub proof fn lemma_swap_multiset(s: Seq<u32>, i: int, j: int)
    requires
        0 <= i < s.len(),
        0 <= j < s.len(),
    ensures
        s.update(i, s[j]).update(j, s[i]).to_multiset() == s.to_multiset(),
{
    broadcast use vstd::seq_lib::to_multiset_update;
    broadcast use vstd::seq_lib::to_multiset_contains;
    broadcast use vstd::multiset::group_multiset_axioms;

    let m0 = s.to_multiset();
    let t = s.update(i, s[j]);
    assert(s.contains(s[i]));
    assert(m0.count(s[i]) > 0);
    let m1 = m0.insert(s[j]).remove(s[i]);
    assert(t.to_multiset() == m1);
    assert(t[j] == s[j]);
    let m2 = m1.insert(s[i]).remove(s[j]);
    assert(t.update(j, s[i]).to_multiset() == m2);
    assert(m2 =~= m0);
}

/// Replaying actions that at most exchange bars keeps the multiset of values.
pub proof fn lemma_replay_conserves(s: Seq<u32>, log: Seq<Action>)
    requires
        forall|k: int| 0 <= k < log.len() ==> conserving(#[trigger] log[k], s.len() as int),
    ensures
        replay(s, log).to_multiset() == s.to_multiset(),
        replay(s, log).len() == s.len(),
    decreases log.len(),
{
    if log.len() > 0 {
        lemma_replay_conserves(s, log.drop_last());
        let prev = replay(s, log.drop_last());
        let a = log.last();
        assert(conserving(log[log.len() - 1], s.len() as int));
        if a.kind == ActionKind::Swap {
            lemma_swap_multiset(prev, a.i as int, a.j as int);
        }
    }
}


/// The action stores a value at bar `y`.
pub open spec fn writes_to(a: Action, y: int) -> bool {
    a.kind == ActionKind::Write && a.i == y
}

pub open spec fn no_swap(log: Seq<Action>) -> bool {
    forall|k: int| 0 <= k < log.len() ==> (#[trigger] log[k]).kind != ActionKind::Swap
}

/// Every `Write` of the log lands in `[lo, hi)`.
pub open spec fn writes_within(log: Seq<Action>, lo: int, hi: int) -> bool {
    forall|k: int|
        0 <= k < log.len() && (#[trigger] log[k]).kind == ActionKind::Write ==> lo <= log[k].i < hi
}

pub proof fn lemma_apply_point(h: Seq<u32>, a: Action, y: int)
    requires
        a.kind != ActionKind::Swap,
        0 <= y < h.len(),
    ensures
        apply_values(h, a).len() == h.len(),
        apply_values(h, a)[y] == if writes_to(a, y) {
            a.value
        } else {
            h[y]
        },
{
}

/// A log without swaps that never writes `y` leaves the value at `y`.
pub proof fn lemma_replay_untouched(h: Seq<u32>, log: Seq<Action>, y: int)
    requires
        no_swap(log),
        0 <= y < h.len(),
        forall|k: int| 0 <= k < log.len() ==> !writes_to(#[trigger] log[k], y),
    ensures
        replay(h, log)[y] == h[y],
    decreases log.len(),
{
    if log.len() > 0 {
        assert(log.last() == log[log.len() - 1]);
        lemma_replay_untouched(h, log.drop_last(), y);
        lemma_replay_len(h, log.drop_last());
        lemma_apply_point(replay(h, log.drop_last()), log.last(), y);
    }
}


/// The bar values after replaying `actions` against `values`.
pub fn replay_values(values: &[u32], actions: &[Action]) -> (r: Vec<u32>)
    ensures
        r@ == replay(values@, actions@),
{
    let mut bars: Vec<u32> = vstd::slice::slice_to_vec(values);
    let n = bars.len();
    let mut k: usize = 0;
    while k < actions.len()
        invariant
            k <= actions.len(),
            n == values@.len(),
            bars@ == replay(values@, actions@.take(k as int)),
        decreases actions.len() - k,
    {
        proof {
            assert(actions@.take(k + 1).drop_last() =~= actions@.take(k as int));
            lemma_replay_len(values@, actions@.take(k as int));
        }
        let a = actions[k];
        match a.kind {
            ActionKind::Swap => {
                if a.i < n && a.j < n {
                    let vi = bars[a.i];
                    let vj = bars[a.j];
                    bars[a.i] = vj;
                    bars[a.j] = vi;
                }
            },
            ActionKind::Write => {
                if a.i < n {
                    bars[a.i] = a.value;
                }
            },
            _ => {},
        }
        proof {
            assert(bars@ =~= replay(values@, actions@.take(k + 1)));
        }
        k += 1;
    }
    proof {
        assert(actions@.take(k as int) =~= actions@);
    }
    bars
}


/// Every bar the action names lies in `[lo, hi)`.
pub open spec fn names_within(a: Action, lo: int, hi: int) -> bool {
    match a.kind {
        ActionKind::Compare | ActionKind::Swap => lo <= a.i < hi && lo <= a.j < hi,
        ActionKind::TempPush | ActionKind::Write => lo <= a.i < hi,
        _ => true,
    }
}

pub open spec fn log_within(log: Seq<Action>, lo: int, hi: int) -> bool {
    forall|k: int| 0 <= k < log.len() ==> names_within(#[trigger] log[k], lo, hi)
}

pub proof fn lemma_log_within_concat(a: Seq<Action>, b: Seq<Action>, lo: int, hi: int)
    requires
        log_within(a, lo, hi),
        log_within(b, lo, hi),
    ensures
        log_within(a + b, lo, hi),
{
    assert forall|k: int| 0 <= k < (a + b).len() implies names_within(#[trigger] (a + b)[k], lo, hi) by {
        if k >= a.len() {
            assert((a + b)[k] == b[k - a.len()]);
        } else {
            assert((a + b)[k] == a[k]);
        }
    }
}

pub proof fn lemma_log_within_widen(log: Seq<Action>, lo: int, hi: int, lo2: int, hi2: int)
    requires
        log_within(log, lo, hi),
        lo2 <= lo,
        hi <= hi2,
    ensures
        log_within(log, lo2, hi2),
{
    assert forall|k: int| 0 <= k < log.len() implies names_within(#[trigger] log[k], lo2, hi2) by {
        assert(names_within(log[k], lo, hi));
    }
}


/// Values held in a single scratch region after action `a`, when `held`
/// were held before it.
pub open spec fn held_after(held: int, a: Action) -> int {
    match a.kind {
        ActionKind::TempPush => held + 1,
        ActionKind::Write => held - 1,
        ActionKind::TempClear | ActionKind::Done => 0,
        _ => held,
    }
}

/// Whether a single scratch region that holds `held` values admits `a`
/// among `n` bars: a push finds room, a write finds a value.
pub open spec fn scratch_ok(held: int, a: Action, n: int) -> bool {
    match a.kind {
        ActionKind::TempPush => held < n,
        ActionKind::Write => held > 0,
        _ => true,
    }
}

/// Replaying `log` through one scratch region that starts with `held`
/// values, every action is admitted.
pub open spec fn runs_clean(held: int, log: Seq<Action>, n: int) -> bool
    decreases log.len(),
{
    if log.len() == 0 {
        true
    } else {
        scratch_ok(held, log[0], n) && runs_clean(held_after(held, log[0]), log.drop_first(), n)
    }
}

/// Values held after replaying `log` from `held`.
pub open spec fn held_end(held: int, log: Seq<Action>) -> int
    decreases log.len(),
{
    if log.len() == 0 {
        held
    } else {
        held_end(held_after(held, log[0]), log.drop_first())
    }
}

pub proof fn lemma_runs_clean_concat(held: int, a: Seq<Action>, b: Seq<Action>, n: int)
    requires
        runs_clean(held, a, n),
        runs_clean(held_end(held, a), b, n),
    ensures
        runs_clean(held, a + b, n),
        held_end(held, a + b) == held_end(held_end(held, a), b),
    decreases a.len(),
{
    if a.len() == 0 {
        assert(a + b =~= b);
    } else {
        assert((a + b).drop_first() =~= a.drop_first() + b);
        assert((a + b)[0] == a[0]);
        lemma_runs_clean_concat(held_after(held, a[0]), a.drop_first(), b, n);
    }
}

} // verus!
