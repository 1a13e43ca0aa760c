//! The round-robin interleaver that simulates tasks running side by side,
//! and where each input action lands in its output.

use vstd::prelude::*;
use crate::action::{Action, ActionKind};
use crate::replay::{
    apply_values, lemma_apply_point, log_within, names_within, lemma_replay_concat, lemma_replay_len,
    lemma_replay_untouched, no_swap, replay, writes_to,
};

verus! {

/// The contents of a list of logs.
pub open spec fn views(v: Seq<Vec<Action>>) -> Seq<Seq<Action>> {
    v.map_values(|l: Vec<Action>| l@)
}

/// How many of the first `u` logs still have an action at round `r`.
pub open spec fn live_before(logs: Seq<Seq<Action>>, r: int, u: int) -> nat
    decreases u,
{
    if u <= 0 {
        0
    } else {
        live_before(logs, r, u - 1) + if logs[u - 1].len() > r {
            1nat
        } else {
            0nat
        }
    }
}

/// Round `r` restricted to the first `u` logs: action `r` of each log that
/// has one, in log order.
pub open spec fn round_of(logs: Seq<Seq<Action>>, r: int, u: int) -> Seq<Action>
    decreases u,
{
    if u <= 0 {
        seq![]
    } else if logs[u - 1].len() > r {
        round_of(logs, r, u - 1).push(logs[u - 1][r])
    } else {
        round_of(logs, r, u - 1)
    }
}

/// The first `r` rounds, one after the other.
pub open spec fn rounds(logs: Seq<Seq<Action>>, r: int) -> Seq<Action>
    decreases r,
{
    if r <= 0 {
        seq![]
    } else {
        rounds(logs, r - 1) + round_of(logs, r - 1, logs.len() as int)
    }
}

/// Length of the longest log.
pub open spec fn longest(logs: Seq<Seq<Action>>) -> nat
    decreases logs.len(),
{
    if logs.len() == 0 {
        0
    } else {
        let m = longest(logs.drop_last());
        if logs.last().len() > m {
            logs.last().len()
        } else {
            m
        }
    }
}

/// Round-robin merge: one action from every log that still has one, visiting
/// the logs in order, until all are exhausted.
pub open spec fn interleave(logs: Seq<Seq<Action>>) -> Seq<Action> {
    rounds(logs, longest(logs) as int)
}

pub proof fn lemma_longest(logs: Seq<Seq<Action>>)
    ensures
        forall|u: int| 0 <= u < logs.len() ==> #[trigger] logs[u].len() <= longest(logs),
        longest(logs) > 0 ==> exists|u: int|
            0 <= u < logs.len() && #[trigger] logs[u].len() == longest(logs),
    decreases logs.len(),
{
    if logs.len() > 0 {
        let init = logs.drop_last();
        lemma_longest(init);
        assert forall|u: int| 0 <= u < logs.len() implies #[trigger] logs[u].len() <= longest(
            logs,
        ) by {
            if u < init.len() {
                assert(logs[u] == init[u]);
            }
        }
        if longest(logs) > 0 {
            if logs.last().len() > longest(init) {
                assert(logs[logs.len() - 1].len() == longest(logs));
            } else {
                let u = choose|u: int| 0 <= u < init.len() && #[trigger] init[u].len() == longest(init);
                assert(logs[u] == init[u]);
            }
        }
    }
}

pub proof fn lemma_live_before(logs: Seq<Seq<Action>>, r: int, u: int)
    requires
        0 <= u <= logs.len(),
    ensures
        live_before(logs, r, u) > 0 <==> exists|v: int| 0 <= v < u && #[trigger] logs[v].len() > r,
        live_before(logs, r, u) <= u,
    decreases u,
{
    if u > 0 {
        lemma_live_before(logs, r, u - 1);
        if live_before(logs, r, u) > 0 && live_before(logs, r, u - 1) == 0 {
            assert(logs[u - 1].len() > r);
        }
        if exists|v: int| 0 <= v < u && #[trigger] logs[v].len() > r {
            let v = choose|v: int| 0 <= v < u && #[trigger] logs[v].len() > r;
            if v < u - 1 {
                assert(live_before(logs, r, u - 1) > 0);
            }
        }
    }
}

/// Round `r` is empty exactly when no log reaches that far.
pub proof fn lemma_round_empty(logs: Seq<Seq<Action>>, r: int)
    requires
        0 <= r,
    ensures
        live_before(logs, r, logs.len() as int) == 0 <==> r >= longest(logs),
{
    lemma_longest(logs);
    lemma_live_before(logs, r, logs.len() as int);
    if r < longest(logs) {
        let u = choose|u: int| 0 <= u < logs.len() && #[trigger] logs[u].len() == longest(logs);
        assert(logs[u].len() > r);
    }
}

/// Merges per-task logs into one by round-robin, keeping each log's order.
pub fn interleave_actions(thread_actions: &[Vec<Action>]) -> (result: Vec<Action>)
    ensures
        result@ == interleave(views(thread_actions@)),
{
    let ghost logs = views(thread_actions@);
    let mut result: Vec<Action> = Vec::new();
    let mut round: usize = 0;
    loop
        invariant
            logs == views(thread_actions@),
            round <= longest(logs),
            result@ == rounds(logs, round as int),
        ensures
            result@ == interleave(logs),
        decreases longest(logs) - round,
    {
        let mut any_remaining = false;
        let mut t: usize = 0;
        while t < thread_actions.len()
            invariant
                logs == views(thread_actions@),
                logs.len() == thread_actions@.len(),
                t <= thread_actions.len(),
                round <= longest(logs),
                result@ == rounds(logs, round as int) + round_of(logs, round as int, t as int),
                any_remaining <==> live_before(logs, round as int, t as int) > 0,
            decreases thread_actions.len() - t,
        {
            let ghost before = result@;
            let actions = &thread_actions[t];
            assert(logs[t as int] == actions@);
            if round < actions.len() {
                result.push(actions[round]);
                any_remaining = true;
                proof {
                    assert(result@ =~= rounds(logs, round as int) + round_of(
                        logs,
                        round as int,
                        t + 1,
                    ));
                }
            }
            t += 1;
        }
        proof {
            lemma_round_empty(logs, round as int);
            assert(rounds(logs, round + 1) == rounds(logs, round as int) + round_of(
                logs,
                round as int,
                logs.len() as int,
            ));
        }
        if !any_remaining {
            proof {
                assert(round_of(logs, round as int, logs.len() as int) =~= seq![]) by {
                    lemma_round_of_empty(logs, round as int, logs.len() as int);
                }
                assert(result@ =~= rounds(logs, round as int));
            }
            break;
        }
        proof {
            lemma_longest(logs);
            let u = choose|u: int| 0 <= u < logs.len() && #[trigger] logs[u].len() == longest(logs);
            assert(logs[u] == thread_actions@[u]@);
            assert(thread_actions@[u].len() == thread_actions@[u]@.len());
        }
        round += 1;
    }
    result
}

pub proof fn lemma_round_of_empty(logs: Seq<Seq<Action>>, r: int, u: int)
    requires
        0 <= u <= logs.len(),
        live_before(logs, r, u) == 0,
    ensures
        round_of(logs, r, u) == Seq::<Action>::empty(),
    decreases u,
{
    if u > 0 {
        lemma_round_of_empty(logs, r, u - 1);
    }
}


/// Where action `k` of log `t` lands in `interleave(logs)`: after the first
/// `k` rounds, behind the logs before `t` that reach round `k`.
pub open spec fn pos(logs: Seq<Seq<Action>>, t: int, k: int) -> int {
    (rounds(logs, k).len() + live_before(logs, k, t)) as int
}

pub proof fn lemma_live_before_mono(logs: Seq<Seq<Action>>, r: int, a: int, b: int)
    requires
        0 <= a <= b <= logs.len(),
    ensures
        live_before(logs, r, a) <= live_before(logs, r, b),
    decreases b - a,
{
    if a < b {
        lemma_live_before_mono(logs, r, a, b - 1);
    }
}

pub proof fn lemma_live_before_counts(logs: Seq<Seq<Action>>, r: int, t: int, u: int)
    requires
        0 <= t < u <= logs.len(),
        logs[t].len() > r,
    ensures
        live_before(logs, r, t) < live_before(logs, r, u),
{
    lemma_live_before_mono(logs, r, t + 1, u);
}

pub proof fn lemma_round_of_len(logs: Seq<Seq<Action>>, r: int, u: int)
    requires
        0 <= u <= logs.len(),
    ensures
        round_of(logs, r, u).len() == live_before(logs, r, u),
    decreases u,
{
    if u > 0 {
        lemma_round_of_len(logs, r, u - 1);
    }
}

pub proof fn lemma_round_of_index(logs: Seq<Seq<Action>>, r: int, t: int, u: int)
    requires
        0 <= t < u <= logs.len(),
        logs[t].len() > r,
    ensures
        round_of(logs, r, u)[live_before(logs, r, t) as int] == logs[t][r],
    decreases u,
{
    lemma_round_of_len(logs, r, u - 1);
    if t < u - 1 {
        lemma_round_of_index(logs, r, t, u - 1);
        lemma_live_before_counts(logs, r, t, u - 1);
    }
}

pub proof fn lemma_rounds_prefix(logs: Seq<Seq<Action>>, r1: int, r2: int)
    requires
        0 <= r1 <= r2,
    ensures
        rounds(logs, r1).len() <= rounds(logs, r2).len(),
        forall|x: int| 0 <= x < rounds(logs, r1).len() ==> rounds(logs, r2)[x] == rounds(logs, r1)[x],
    decreases r2 - r1,
{
    if r1 < r2 {
        lemma_rounds_prefix(logs, r1, r2 - 1);
    }
}

/// Action `k` of log `t` stands at `pos(logs, t, k)` in the merged log.
pub proof fn lemma_interleave_places(logs: Seq<Seq<Action>>, t: int, k: int)
    requires
        0 <= t < logs.len(),
        0 <= k < logs[t].len(),
    ensures
        0 <= pos(logs, t, k) < interleave(logs).len(),
        interleave(logs)[pos(logs, t, k)] == logs[t][k],
        pos(logs, t, k) < rounds(logs, k + 1).len(),
{
    lemma_longest(logs);
    lemma_round_of_len(logs, k, logs.len() as int);
    lemma_live_before_counts(logs, k, t, logs.len() as int);
    lemma_round_of_index(logs, k, t, logs.len() as int);
    lemma_rounds_prefix(logs, k + 1, longest(logs) as int);
}

/// Interleaver fidelity: the actions of each log appear in the merged log,
/// each exactly where `pos` says, in the log's own order.
pub proof fn lemma_interleave_keeps_order(logs: Seq<Seq<Action>>, t: int, k1: int, k2: int)
    requires
        0 <= t < logs.len(),
        0 <= k1 < k2 < logs[t].len(),
    ensures
        interleave(logs)[pos(logs, t, k1)] == logs[t][k1],
        interleave(logs)[pos(logs, t, k2)] == logs[t][k2],
        pos(logs, t, k1) < pos(logs, t, k2),
{
    lemma_interleave_places(logs, t, k1);
    lemma_interleave_places(logs, t, k2);
    lemma_rounds_prefix(logs, k1 + 1, k2);
}

/// Two different actions of the inputs never land on the same position.
pub proof fn lemma_interleave_injective(logs: Seq<Seq<Action>>, t1: int, k1: int, t2: int, k2: int)
    requires
        0 <= t1 < logs.len(),
        0 <= k1 < logs[t1].len(),
        0 <= t2 < logs.len(),
        0 <= k2 < logs[t2].len(),
        t1 != t2 || k1 != k2,
    ensures
        pos(logs, t1, k1) != pos(logs, t2, k2),
{
    lemma_interleave_places(logs, t1, k1);
    lemma_interleave_places(logs, t2, k2);
    if k1 < k2 {
        lemma_rounds_prefix(logs, k1 + 1, k2);
    } else if k2 < k1 {
        lemma_rounds_prefix(logs, k2 + 1, k1);
    } else if t1 < t2 {
        lemma_live_before_counts(logs, k1, t1, t2);
    } else {
        lemma_live_before_counts(logs, k1, t2, t1);
    }
}

proof fn lemma_rounds_locate(logs: Seq<Seq<Action>>, r: int, m: int) -> (q: int)
    requires
        0 <= r,
        0 <= m < rounds(logs, r).len(),
    ensures
        0 <= q < r,
        rounds(logs, q).len() <= m < rounds(logs, q + 1).len(),
    decreases r,
{
    if m < rounds(logs, r - 1).len() {
        lemma_rounds_locate(logs, r - 1, m)
    } else {
        r - 1
    }
}

proof fn lemma_live_locate(logs: Seq<Seq<Action>>, r: int, u: int, c: int) -> (t: int)
    requires
        0 <= u <= logs.len(),
        0 <= c < live_before(logs, r, u),
    ensures
        0 <= t < u,
        logs[t].len() > r,
        live_before(logs, r, t) == c,
    decreases u,
{
    if c < live_before(logs, r, u - 1) {
        lemma_live_locate(logs, r, u - 1, c)
    } else {
        u - 1
    }
}

/// Every position of the merged log holds some action of the inputs.
pub proof fn lemma_interleave_covers(logs: Seq<Seq<Action>>, m: int)
    requires
        0 <= m < interleave(logs).len(),
    ensures
        exists|t: int, k: int|
            0 <= t < logs.len() && 0 <= k < logs[t].len() && #[trigger] pos(logs, t, k) == m,
{
    let r = lemma_rounds_locate(logs, longest(logs) as int, m);
    lemma_round_of_len(logs, r, logs.len() as int);
    let c = m - rounds(logs, r).len();
    let t = lemma_live_locate(logs, r, logs.len() as int, c);
    assert(pos(logs, t, r) == m);
}


/// No log other than `u` writes bar `y`, and no log swaps.
pub open spec fn sole_writer(logs: Seq<Seq<Action>>, u: int, y: int) -> bool {
    &&& forall|v: int| 0 <= v < logs.len() ==> no_swap(#[trigger] logs[v])
    &&& forall|v: int, k: int|
        0 <= v < logs.len() && v != u && 0 <= k < logs[v].len() ==> !writes_to(
            #[trigger] logs[v][k],
            y,
        )
}

proof fn lemma_round_of_point(logs: Seq<Seq<Action>>, r: int, u: int, w: int, y: int, h: Seq<u32>)
    requires
        0 <= r,
        0 <= w <= logs.len(),
        0 <= u < logs.len(),
        0 <= y < h.len(),
        sole_writer(logs, u, y),
    ensures
        replay(h, round_of(logs, r, w)).len() == h.len(),
        replay(h, round_of(logs, r, w))[y] == if u < w && logs[u].len() > r {
            apply_values(h, logs[u][r])[y]
        } else {
            h[y]
        },
    decreases w,
{
    if w > 0 {
        lemma_round_of_point(logs, r, u, w - 1, y, h);
        let prev = round_of(logs, r, w - 1);
        lemma_replay_len(h, prev);
        if logs[w - 1].len() > r {
            let x = logs[w - 1][r];
            assert(no_swap(logs[w - 1]));
            assert(prev.push(x).drop_last() =~= prev);
            lemma_apply_point(replay(h, prev), x, y);
            if logs[u].len() > r {
                assert(no_swap(logs[u]));
                lemma_apply_point(h, logs[u][r], y);
            }
        }
    }
}

proof fn lemma_rounds_point(logs: Seq<Seq<Action>>, r: int, u: int, y: int, g: Seq<u32>)
    requires
        0 <= r,
        0 <= u < logs.len(),
        0 <= y < g.len(),
        sole_writer(logs, u, y),
    ensures
        replay(g, rounds(logs, r)).len() == g.len(),
        replay(g, rounds(logs, r))[y] == replay(
            g,
            logs[u].take(if r < logs[u].len() {
                r
            } else {
                logs[u].len() as int
            }),
        )[y],
    decreases r,
{
    let lu = logs[u];
    if r == 0 {
        assert(lu.take(0) =~= Seq::<Action>::empty());
    } else {
        lemma_rounds_point(logs, r - 1, u, y, g);
        let h = replay(g, rounds(logs, r - 1));
        lemma_replay_concat(g, rounds(logs, r - 1), round_of(logs, r - 1, logs.len() as int));
        lemma_round_of_point(logs, r - 1, u, logs.len() as int, y, h);
        if lu.len() > r - 1 {
            let pre = lu.take(r - 1);
            assert(lu.take(r).drop_last() =~= pre);
            assert(lu.take(r).last() == lu[r - 1]);
            assert(no_swap(lu));
            lemma_replay_len(g, pre);
            lemma_apply_point(h, lu[r - 1], y);
            lemma_apply_point(replay(g, pre), lu[r - 1], y);
        }
    }
}

/// Replaying the merged log, bar `y` ends as replaying its only writer's log
/// alone would leave it.
pub proof fn lemma_interleave_point(logs: Seq<Seq<Action>>, u: int, y: int, g: Seq<u32>)
    requires
        0 <= u < logs.len(),
        0 <= y < g.len(),
        sole_writer(logs, u, y),
    ensures
        replay(g, interleave(logs))[y] == replay(g, logs[u])[y],
{
    lemma_longest(logs);
    lemma_rounds_point(logs, longest(logs) as int, u, y, g);
    assert(logs[u].take(logs[u].len() as int) =~= logs[u]);
}

/// Replaying the merged log leaves a bar that no input log writes.
pub proof fn lemma_interleave_untouched(logs: Seq<Seq<Action>>, y: int, g: Seq<u32>)
    requires
        0 <= y < g.len(),
        forall|v: int| 0 <= v < logs.len() ==> no_swap(#[trigger] logs[v]),
        forall|v: int, k: int|
            0 <= v < logs.len() && 0 <= k < logs[v].len() ==> !writes_to(#[trigger] logs[v][k], y),
    ensures
        replay(g, interleave(logs))[y] == g[y],
{
    let out = interleave(logs);
    assert forall|m: int| 0 <= m < out.len() implies (#[trigger] out[m]).kind != ActionKind::Swap
        && !writes_to(out[m], y) by {
        lemma_interleave_covers(logs, m);
        let (t, k) = choose|t: int, k: int|
            0 <= t < logs.len() && 0 <= k < logs[t].len() && #[trigger] pos(logs, t, k) == m;
        lemma_interleave_places(logs, t, k);
        assert(no_swap(logs[t]));
    }
    lemma_replay_untouched(g, out, y);
}


/// Merging logs that name only bars of `[lo, hi)` gives such a log.
pub proof fn lemma_interleave_within(logs: Seq<Seq<Action>>, lo: int, hi: int)
    requires
        forall|v: int| 0 <= v < logs.len() ==> log_within(#[trigger] logs[v], lo, hi),
    ensures
        log_within(interleave(logs), lo, hi),
{
    let out = interleave(logs);
    assert forall|m: int| 0 <= m < out.len() implies names_within(#[trigger] out[m], lo, hi) by {
        lemma_interleave_covers(logs, m);
        let (t, k) = choose|t: int, k: int|
            0 <= t < logs.len() && 0 <= k < logs[t].len() && #[trigger] pos(logs, t, k) == m;
        lemma_interleave_places(logs, t, k);
        assert(log_within(logs[t], lo, hi));
    }
}

} // verus!
