//! Per-task scratch holdings along a log, and why interleaved merges never
//! overfill or underflow them.

use vstd::prelude::*;
use crate::action::{Action, ActionKind};
use crate::interleave::{interleave, lemma_longest, longest, round_of, rounds};
use crate::replay::{held_after, held_end, runs_clean, scratch_ok};

verus! {

/// Sum of a sequence of counts.
pub open spec fn total(h: Seq<int>) -> int
    decreases h.len(),
{
    if h.len() == 0 {
        0
    } else {
        total(h.drop_last()) + h.last()
    }
}

/// Values held in each task's scratch region after action `a`.
pub open spec fn multi_after(held: Seq<int>, a: Action) -> Seq<int> {
    if a.kind == ActionKind::Done {
        Seq::new(held.len(), |t: int| 0int)
    } else if a.thread_id < held.len() {
        held.update(a.thread_id as int, held_after(held[a.thread_id as int], a))
    } else {
        held
    }
}

/// Whether per-task regions holding `held` admit `a` among `n` bars.
pub open spec fn multi_ok(held: Seq<int>, a: Action, n: int) -> bool {
    match a.kind {
        ActionKind::TempPush => a.thread_id < held.len() && total(held) < n,
        ActionKind::Write => a.thread_id < held.len() && held[a.thread_id as int] > 0,
        ActionKind::TempClear => a.thread_id < held.len(),
        _ => true,
    }
}

/// Replaying `log` through per-task regions that start with `held`,
/// every action is admitted.
pub open spec fn multi_clean(held: Seq<int>, log: Seq<Action>, n: int) -> bool
    decreases log.len(),
{
    if log.len() == 0 {
        true
    } else {
        multi_ok(held, log[0], n) && multi_clean(multi_after(held, log[0]), log.drop_first(), n)
    }
}

pub open spec fn multi_end(held: Seq<int>, log: Seq<Action>) -> Seq<int>
    decreases log.len(),
{
    if log.len() == 0 {
        held
    } else {
        multi_end(multi_after(held, log[0]), log.drop_first())
    }
}

pub open spec fn zeros(t: int) -> Seq<int> {
    Seq::new(t as nat, |k: int| 0int)
}

pub proof fn lemma_multi_concat(held: Seq<int>, a: Seq<Action>, b: Seq<Action>, n: int)
    requires
        multi_clean(held, a, n),
        multi_clean(multi_end(held, a), b, n),
    ensures
        multi_clean(held, a + b, n),
        multi_end(held, a + b) == multi_end(multi_end(held, a), b),
    decreases a.len(),
{
    if a.len() == 0 {
        assert(a + b =~= b);
    } else {
        assert((a + b).drop_first() =~= a.drop_first() + b);
        assert((a + b)[0] == a[0]);
        lemma_multi_concat(multi_after(held, a[0]), a.drop_first(), b, n);
    }
}

pub proof fn lemma_held_end_push(held: int, l: Seq<Action>, x: Action)
    ensures
        held_end(held, l.push(x)) == held_after(held_end(held, l), x),
    decreases l.len(),
{
    if l.len() == 0 {
        assert(l.push(x).drop_first() =~= Seq::<Action>::empty());
        assert(l.push(x)[0] == x);
        assert(held_end(held_after(held, x), l.push(x).drop_first()) == held_after(held, x));
    } else {
        assert(l.push(x).drop_first() =~= l.drop_first().push(x));
        assert(l.push(x)[0] == l[0]);
        lemma_held_end_push(held_after(held, l[0]), l.drop_first(), x);
    }
}

pub proof fn lemma_runs_clean_push(held: int, l: Seq<Action>, x: Action, m: int)
    requires
        runs_clean(held, l, m),
        scratch_ok(held_end(held, l), x, m),
    ensures
        runs_clean(held, l.push(x), m),
    decreases l.len(),
{
    if l.len() == 0 {
        assert(l.push(x).drop_first() =~= Seq::<Action>::empty());
        assert(l.push(x)[0] == x);
        assert(runs_clean(held_after(held, x), l.push(x).drop_first(), m));
    } else {
        assert(l.push(x).drop_first() =~= l.drop_first().push(x));
        assert(l.push(x)[0] == l[0]);
        lemma_runs_clean_push(held_after(held, l[0]), l.drop_first(), x, m);
    }
}

/// Along a clean run from an empty region with room for `m`, each action
/// is admitted by the holding before it, and holdings stay within `[0, m]`.
pub proof fn lemma_runs_clean_prefix(l: Seq<Action>, m: int, k: int)
    requires
        runs_clean(0, l, m),
        0 <= k <= l.len(),
    ensures
        k < l.len() ==> scratch_ok(held_end(0, l.take(k)), l[k], m),
        0 <= held_end(0, l.take(k)),
        held_end(0, l.take(k)) <= if m > 0 { m } else { 0 },
    decreases l.len(),
{
    lemma_clean_prefix_from(0, l, m, k);
}

proof fn lemma_clean_prefix_from(h: int, l: Seq<Action>, m: int, k: int)
    requires
        runs_clean(h, l, m),
        0 <= h,
        h <= if m > 0 { m } else { 0 },
        0 <= k <= l.len(),
    ensures
        k < l.len() ==> scratch_ok(held_end(h, l.take(k)), l[k], m),
        0 <= held_end(h, l.take(k)),
        held_end(h, l.take(k)) <= if m > 0 { m } else { 0 },
    decreases k,
{
    if k == 0 {
        assert(l.take(0) =~= Seq::<Action>::empty());
    } else {
        let a = l[0];
        let h2 = held_after(h, a);
        assert(scratch_ok(h, a, m));
        lemma_clean_prefix_from(h2, l.drop_first(), m, k - 1);
        assert(l.take(k).drop_first() =~= l.drop_first().take(k - 1));
        assert(l.take(k)[0] == a);
        if k < l.len() {
            assert(l.drop_first()[k - 1] == l[k]);
        }
    }
}

pub proof fn lemma_total_update(h: Seq<int>, t: int, x: int)
    requires
        0 <= t < h.len(),
    ensures
        total(h.update(t, x)) == total(h) - h[t] + x,
    decreases h.len(),
{
    let u = h.update(t, x);
    if t < h.len() - 1 {
        assert(u.drop_last() =~= h.drop_last().update(t, x));
        lemma_total_update(h.drop_last(), t, x);
    } else {
        assert(u.drop_last() =~= h.drop_last());
    }
}

pub proof fn lemma_total_zeros(t: int)
    requires
        0 <= t,
    ensures
        total(zeros(t)) == 0,
    decreases t,
{
    if t > 0 {
        assert(zeros(t).drop_last() =~= zeros(t - 1));
        lemma_total_zeros(t - 1);
    }
}

/// Pointwise smaller counts have a smaller total, strictly so when one is
/// strictly smaller.
pub proof fn lemma_total_le(a: Seq<int>, b: Seq<int>)
    requires
        a.len() == b.len(),
        forall|t: int| 0 <= t < a.len() ==> a[t] <= b[t],
    ensures
        total(a) <= total(b),
        (exists|t: int| 0 <= t < a.len() && a[t] < b[t]) ==> total(a) < total(b),
    decreases a.len(),
{
    if a.len() > 0 {
        lemma_total_le(a.drop_last(), b.drop_last());
        if exists|t: int| 0 <= t < a.len() && a[t] < b[t] {
            let t = choose|t: int| 0 <= t < a.len() && a[t] < b[t];
            if t < a.len() - 1 {
                assert(a.drop_last()[t] < b.drop_last()[t]);
            }
        }
    }
}

/// Padding counts with zeros keeps their total.
pub proof fn lemma_total_pad(ms: Seq<int>, t: int)
    requires
        ms.len() <= t,
    ensures
        total(Seq::new(t as nat, |u: int| if u < ms.len() { ms[u] } else { 0 })) == total(ms),
    decreases t,
{
    let p = Seq::new(t as nat, |u: int| if u < ms.len() { ms[u] } else { 0 });
    if t > ms.len() {
        assert(p.drop_last() =~= Seq::new((t - 1) as nat, |u: int| if u < ms.len() { ms[u] } else { 0 }));
        lemma_total_pad(ms, t - 1);
    } else if t > 0 {
        assert(p =~= ms);
    } else {
        assert(ms.len() == 0);
    }
}


/// Logs that can run side by side: log `u` belongs to task `u`, holds no
/// `Done`, runs clean from an empty region with room for `ms[u]` values and
/// leaves it empty.
pub open spec fn side_by_side(logs: Seq<Seq<Action>>, ms: Seq<int>) -> bool {
    &&& logs.len() == ms.len()
    &&& forall|u: int, k: int|
        0 <= u < logs.len() && 0 <= k < logs[u].len() ==> (#[trigger] logs[u][k]).thread_id == u
            && logs[u][k].kind != ActionKind::Done
    &&& forall|u: int|
        0 <= u < logs.len() ==> runs_clean(0, #[trigger] logs[u], ms[u]) && held_end(0, logs[u])
            == 0 && ms[u] >= 0
}

/// Actions of log `u` applied once round `r` has reached log `w`.
pub open spec fn applied(logs: Seq<Seq<Action>>, r: int, w: int, u: int) -> int {
    let len = logs[u].len() as int;
    let c = if u < w {
        r + 1
    } else {
        r
    };
    if c < len {
        c
    } else {
        len
    }
}

/// Per-task holdings once round `r` has reached log `w`, over `t` tasks.
pub open spec fn holdings(logs: Seq<Seq<Action>>, r: int, w: int, t: int) -> Seq<int> {
    Seq::new(
        t as nat,
        |u: int|
            if u < logs.len() {
                held_end(0, logs[u].take(applied(logs, r, w, u)))
            } else {
                0
            },
    )
}

pub open spec fn padded(ms: Seq<int>, t: int) -> Seq<int> {
    Seq::new(t as nat, |u: int| if u < ms.len() { ms[u] } else { 0 })
}

proof fn lemma_multi_push(held: Seq<int>, a: Seq<Action>, x: Action, n: int)
    requires
        multi_clean(held, a, n),
        multi_ok(multi_end(held, a), x, n),
    ensures
        multi_clean(held, a.push(x), n),
        multi_end(held, a.push(x)) == multi_after(multi_end(held, a), x),
{
    let e = multi_end(held, a);
    let b = seq![x];
    assert(b.drop_first() =~= Seq::<Action>::empty());
    assert(b[0] == x);
    assert(multi_clean(multi_after(e, x), b.drop_first(), n));
    assert(multi_end(multi_after(e, x), b.drop_first()) == multi_after(e, x));
    assert(multi_clean(e, b, n));
    assert(multi_end(e, b) == multi_after(e, x));
    lemma_multi_concat(held, a, b, n);
    assert(a.push(x) =~= a + b);
}

proof fn lemma_holdings_bound(logs: Seq<Seq<Action>>, ms: Seq<int>, r: int, w: int, t: int)
    requires
        side_by_side(logs, ms),
        logs.len() <= t,
        0 <= r,
    ensures
        forall|u: int| 0 <= u < t ==> 0 <= #[trigger] holdings(logs, r, w, t)[u] <= padded(ms, t)[u],
{
    assert forall|u: int| 0 <= u < t implies 0 <= #[trigger] holdings(logs, r, w, t)[u] <= padded(
        ms,
        t,
    )[u] by {
        if u < logs.len() {
            assert(runs_clean(0, logs[u], ms[u]));
            lemma_runs_clean_prefix(logs[u], ms[u], applied(logs, r, w, u));
        }
    }
}

proof fn lemma_round_clean(logs: Seq<Seq<Action>>, ms: Seq<int>, r: int, w: int, t: int, n: int)
    requires
        side_by_side(logs, ms),
        logs.len() <= t,
        total(ms) <= n,
        0 <= r,
        0 <= w <= logs.len(),
    ensures
        multi_clean(holdings(logs, r, 0, t), round_of(logs, r, w), n),
        multi_end(holdings(logs, r, 0, t), round_of(logs, r, w)) == holdings(logs, r, w, t),
    decreases w,
{
    let h0 = holdings(logs, r, 0, t);
    if w == 0 {
        assert(round_of(logs, r, 0) =~= Seq::<Action>::empty());
    } else {
        lemma_round_clean(logs, ms, r, w - 1, t, n);
        let u = w - 1;
        let prev = holdings(logs, r, w - 1, t);
        let lu = logs[u];
        if lu.len() > r {
            let x = lu[r];
            assert(x.thread_id == u && x.kind != ActionKind::Done);
            assert(runs_clean(0, lu, ms[u]));
            lemma_runs_clean_prefix(lu, ms[u], r);
            assert(applied(logs, r, w - 1, u) == r);
            assert(prev[u] == held_end(0, lu.take(r)));
            if x.kind == ActionKind::TempPush {
                lemma_holdings_bound(logs, ms, r, w - 1, t);
                lemma_total_le(prev, padded(ms, t));
                assert(prev[u] < padded(ms, t)[u]);
                lemma_total_pad(ms, t);
            }
            assert(multi_ok(prev, x, n));
            lemma_multi_push(h0, round_of(logs, r, w - 1), x, n);
            assert(lu.take(r + 1) =~= lu.take(r).push(x));
            lemma_held_end_push(0, lu.take(r), x);
            assert(multi_after(prev, x) =~= holdings(logs, r, w, t));
        } else {
            assert(holdings(logs, r, w - 1, t) =~= holdings(logs, r, w, t));
        }
    }
}

proof fn lemma_rounds_clean(logs: Seq<Seq<Action>>, ms: Seq<int>, r: int, t: int, n: int)
    requires
        side_by_side(logs, ms),
        logs.len() <= t,
        total(ms) <= n,
        0 <= r,
    ensures
        multi_clean(zeros(t), rounds(logs, r), n),
        multi_end(zeros(t), rounds(logs, r)) == holdings(logs, r, 0, t),
    decreases r,
{
    if r == 0 {
        assert forall|u: int| 0 <= u < logs.len() implies logs[u].take(
            applied(logs, 0, 0, u),
        ) =~= Seq::<Action>::empty() by {}
        assert(holdings(logs, 0, 0, t) =~= zeros(t));
    } else {
        lemma_rounds_clean(logs, ms, r - 1, t, n);
        lemma_round_clean(logs, ms, r - 1, logs.len() as int, t, n);
        lemma_multi_concat(zeros(t), rounds(logs, r - 1), round_of(logs, r - 1, logs.len() as int), n);
        assert(holdings(logs, r - 1, logs.len() as int, t) =~= holdings(logs, r, 0, t));
    }
}

/// Logs that can run side by side, whose rooms sum to at most `n`, run
/// clean when interleaved, from empty regions back to empty regions.
pub proof fn lemma_interleave_clean(logs: Seq<Seq<Action>>, ms: Seq<int>, t: int, n: int)
    requires
        side_by_side(logs, ms),
        logs.len() <= t,
        total(ms) <= n,
    ensures
        multi_clean(zeros(t), interleave(logs), n),
        multi_end(zeros(t), interleave(logs)) == zeros(t),
{
    let l = longest(logs) as int;
    lemma_longest(logs);
    lemma_rounds_clean(logs, ms, l, t, n);
    assert forall|u: int| 0 <= u < logs.len() implies logs[u].take(applied(logs, l, 0, u)) =~= logs[u] by {
        assert(logs[u].len() <= l);
    }
    assert(holdings(logs, l, 0, t) =~= zeros(t));
}


pub proof fn lemma_total_cons(x: int, rest: Seq<int>)
    ensures
        total(seq![x] + rest) == x + total(rest),
    decreases rest.len(),
{
    if rest.len() == 0 {
        assert(seq![x] + rest =~= seq![x]);
        assert(seq![x].drop_last() =~= Seq::<int>::empty());
        assert(seq![x].last() == x);
        assert(total(Seq::<int>::empty()) == 0);
        assert(total(rest) == 0);
    } else {
        assert((seq![x] + rest).drop_last() =~= seq![x] + rest.drop_last());
        assert((seq![x] + rest).last() == rest.last());
        lemma_total_cons(x, rest.drop_last());
    }
}

} // verus!
