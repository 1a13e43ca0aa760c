//! Properties of the generators, the interleaver and the engine, each
//! stated over the spec functions that the code is proved to follow.

use vstd::prelude::*;
use crate::action::{done_action, ends_with_single_done, sorted, Action, ActionKind};
use crate::replay::{log_within, replay};
use crate::bubble::{bubble_log, bubble_pass, bubble_passes};
use crate::engine::EngineView;
use crate::interleave::{interleave, live_before, longest, round_of, rounds};
use crate::merge::{merge_log, merge_sort_log, msort, push_log, write_log};
use crate::parallel::{chunk_phase, merge_round, parallel_log, tournament};

verus! {

/// No action of the log is a `Done`.
pub open spec fn no_done(log: Seq<Action>) -> bool {
    forall|k: int| 0 <= k < log.len() ==> (#[trigger] log[k]).kind != ActionKind::Done
}

pub open spec fn all_no_done(logs: Seq<Seq<Action>>) -> bool {
    forall|u: int| 0 <= u < logs.len() ==> no_done(#[trigger] logs[u])
}

proof fn lemma_no_done_concat(a: Seq<Action>, b: Seq<Action>)
    requires
        no_done(a),
        no_done(b),
    ensures
        no_done(a + b),
{
    assert forall|k: int| 0 <= k < (a + b).len() implies (#[trigger] (a + b)[k]).kind
        != ActionKind::Done by {
        if k >= a.len() {
            assert((a + b)[k] == b[k - a.len()]);
        }
    }
}

proof fn lemma_single_done(body: Seq<Action>)
    requires
        no_done(body),
    ensures
        ends_with_single_done(body.push(done_action())),
{
    let log = body.push(done_action());
    assert forall|k: int| 0 <= k < log.len() - 1 implies (#[trigger] log[k]).kind
        != ActionKind::Done by {
        assert(log[k] == body[k]);
    }
}

proof fn lemma_bubble_pass_no_done(s: Seq<u32>, j: int, end: int)
    ensures
        no_done(bubble_pass(s, j, end).0),
    decreases end - j,
{
    if j < end {
        if s[j] > s[j + 1] {
            let t = s.update(j, s[j + 1]).update(j + 1, s[j]);
            lemma_bubble_pass_no_done(t, j + 1, end);
            lemma_no_done_concat(
                seq![
                    crate::action::compare_action(j, j + 1, 0, 0),
                    crate::action::swap_action(j, j + 1),
                ],
                bubble_pass(t, j + 1, end).0,
            );
        } else {
            lemma_bubble_pass_no_done(s, j + 1, end);
            lemma_no_done_concat(
                seq![crate::action::compare_action(j, j + 1, 0, 0)],
                bubble_pass(s, j + 1, end).0,
            );
        }
    }
}

proof fn lemma_bubble_passes_no_done(s: Seq<u32>, i: int, n: int)
    ensures
        no_done(bubble_passes(s, i, n).0),
    decreases n - i,
{
    if i < n {
        let p = bubble_pass(s, 0, n - 1 - i);
        lemma_bubble_pass_no_done(s, 0, n - 1 - i);
        lemma_bubble_passes_no_done(p.1, i + 1, n);
        lemma_no_done_concat(p.0, bubble_passes(p.1, i + 1, n).0);
    }
}

proof fn lemma_push_log_no_done(
    a: Seq<u32>,
    b: Seq<u32>,
    i: int,
    j: int,
    base: int,
    mem: int,
    task: usize,
)
    ensures
        no_done(push_log(a, b, i, j, base, mem, task)),
    decreases a.len() - i + b.len() - j,
{
    if i < 0 || j < 0 || i > a.len() || j > b.len() {
    } else if i < a.len() && j < b.len() {
        if a[i] <= b[j] {
            lemma_push_log_no_done(a, b, i + 1, j, base, mem, task);
            let r = push_log(a, b, i + 1, j, base, mem, task);
            lemma_no_done_concat(
                seq![
                    crate::action::compare_action(base + i, base + a.len() + j, mem, task),
                    crate::action::push_action(base + i, a[i], mem, i + j, task),
                ],
                r,
            );
        } else {
            lemma_push_log_no_done(a, b, i, j + 1, base, mem, task);
            let r = push_log(a, b, i, j + 1, base, mem, task);
            lemma_no_done_concat(
                seq![
                    crate::action::compare_action(base + i, base + a.len() + j, mem, task),
                    crate::action::push_action(base + a.len() + j, b[j], mem, i + j, task),
                ],
                r,
            );
        }
    } else if i < a.len() {
        lemma_push_log_no_done(a, b, i + 1, j, base, mem, task);
        lemma_no_done_concat(
            seq![crate::action::push_action(base + i, a[i], mem, i + j, task)],
            push_log(a, b, i + 1, j, base, mem, task),
        );
    } else if j < b.len() {
        lemma_push_log_no_done(a, b, i, j + 1, base, mem, task);
        lemma_no_done_concat(
            seq![crate::action::push_action(base + a.len() + j, b[j], mem, i + j, task)],
            push_log(a, b, i, j + 1, base, mem, task),
        );
    }
}

proof fn lemma_merge_log_no_done(a: Seq<u32>, b: Seq<u32>, base: int, mem: int, task: usize)
    ensures
        no_done(merge_log(a, b, base, mem, task)),
{
    lemma_push_log_no_done(a, b, 0, 0, base, mem, task);
    let w = write_log(crate::merge::merged(a, b), base, mem, task);
    assert(no_done(w));
    lemma_no_done_concat(push_log(a, b, 0, 0, base, mem, task), w);
    lemma_no_done_concat(
        push_log(a, b, 0, 0, base, mem, task) + w,
        seq![crate::action::clear_action(mem, task)],
    );
}

proof fn lemma_msort_no_done(s: Seq<u32>, lo: int, hi: int, off: int, mem: int, task: usize)
    ensures
        no_done(msort(s, lo, hi, off, mem, task).0),
    decreases hi - lo,
{
    if hi - lo > 1 {
        let mid = lo + (hi - lo) / 2;
        let l = msort(s, lo, mid, off, mem, task);
        let r = msort(l.1, mid, hi, off, mem, task);
        lemma_msort_no_done(s, lo, mid, off, mem, task);
        lemma_msort_no_done(l.1, mid, hi, off, mem, task);
        let m = merge_log(r.1.subrange(lo, mid), r.1.subrange(mid, hi), off + lo, mem + (hi - lo) * 4, task);
        lemma_merge_log_no_done(r.1.subrange(lo, mid), r.1.subrange(mid, hi), off + lo, mem + (hi - lo) * 4, task);
        lemma_no_done_concat(l.0, r.0);
        lemma_no_done_concat(l.0 + r.0, m);
    }
}

proof fn lemma_round_of_no_done(logs: Seq<Seq<Action>>, r: int, u: int)
    requires
        0 <= u <= logs.len(),
        0 <= r,
        all_no_done(logs),
    ensures
        no_done(round_of(logs, r, u)),
    decreases u,
{
    if u > 0 {
        lemma_round_of_no_done(logs, r, u - 1);
        if logs[u - 1].len() > r && r >= 0 {
            assert(no_done(logs[u - 1]));
            lemma_no_done_concat(round_of(logs, r, u - 1), seq![logs[u - 1][r]]);
            assert(round_of(logs, r, u - 1).push(logs[u - 1][r]) =~= round_of(logs, r, u - 1)
                + seq![logs[u - 1][r]]);
        }
    }
}

proof fn lemma_rounds_no_done(logs: Seq<Seq<Action>>, r: int)
    requires
        all_no_done(logs),
        0 <= r,
    ensures
        no_done(rounds(logs, r)),
    decreases r,
{
    if r > 0 {
        lemma_rounds_no_done(logs, r - 1);
        lemma_round_of_no_done(logs, r - 1, logs.len() as int);
        lemma_no_done_concat(rounds(logs, r - 1), round_of(logs, r - 1, logs.len() as int));
    }
}

proof fn lemma_merge_round_no_done(
    arr: Seq<u32>,
    n: int,
    step: int,
    tasks: int,
    left: int,
    k: int,
)
    ensures
        all_no_done(merge_round(arr, n, step, tasks, left, k).0),
    decreases (if left < n {
        n - left
    } else {
        0
    }),
{
    if left < n && step > 0 {
        let mid = crate::parallel::min(left + step, n);
        let right = crate::parallel::min(left + 2 * step, n);
        if mid < right {
            let a = arr.subrange(left, mid);
            let b = arr.subrange(mid, right);
            let next = crate::merge::splice(arr, left, crate::merge::merged(a, b));
            lemma_merge_round_no_done(next, n, step, tasks, left + 2 * step, k + 1);
            lemma_merge_log_no_done(a, b, left, (right - left) * 4, (k % tasks) as usize);
            let logs = merge_round(arr, n, step, tasks, left, k).0;
            let rest = merge_round(next, n, step, tasks, left + 2 * step, k + 1).0;
            assert forall|u: int| 0 <= u < logs.len() implies no_done(#[trigger] logs[u]) by {
                if u > 0 {
                    assert(logs[u] == rest[u - 1]);
                }
            }
        } else {
            lemma_merge_round_no_done(arr, n, step, tasks, left + 2 * step, k);
        }
    }
}

proof fn lemma_tournament_no_done(arr: Seq<u32>, n: int, step: int, level: int, tasks: int)
    ensures
        no_done(tournament(arr, n, step, level, tasks)),
    decreases (if step < n {
        n - step
    } else {
        0
    }),
{
    if step < n && step > 0 {
        let r = merge_round(arr, n, step, tasks, 0, 0);
        lemma_merge_round_no_done(arr, n, step, tasks, 0, 0);
        lemma_rounds_no_done(r.0, longest(r.0) as int);
        lemma_tournament_no_done(r.1, n, 2 * step, level + 1, tasks);
        let ph = seq![crate::action::phase_action(level)];
        assert(no_done(ph));
        lemma_no_done_concat(ph, interleave(r.0));
        lemma_no_done_concat(ph + interleave(r.0), tournament(r.1, n, 2 * step, level + 1, tasks));
    }
}

proof fn lemma_chunk_phase_no_done(s: Seq<u32>, cs: int, t: int)
    ensures
        all_no_done(chunk_phase(s, cs, t).0),
        t >= 0 ==> chunk_phase(s, cs, t).0.len() == t,
    decreases t,
{
    if t > 0 {
        lemma_chunk_phase_no_done(s, cs, t - 1);
        let p = chunk_phase(s, cs, t - 1);
        let u = t - 1;
        let start = u * cs;
        if start < s.len() {
            let end = crate::parallel::min(start + cs, s.len() as int);
            lemma_msort_no_done(p.1.subrange(start, end), 0, end - start, start, 0, u as usize);
        }
        let logs = chunk_phase(s, cs, t).0;
        assert forall|v: int| 0 <= v < logs.len() implies no_done(#[trigger] logs[v]) by {
            if v < t - 1 {
                assert(logs[v] == p.0[v]);
            }
        }
    }
}

/// Every log ends with exactly one `Done`, and the log of an empty input is
/// that `Done` alone.
pub proof fn lemma_termination_shape(s: Seq<u32>, tasks: int)
    ensures
        ends_with_single_done(bubble_log(s)),
        ends_with_single_done(merge_sort_log(s)),
        ends_with_single_done(parallel_log(s, tasks)),
        s.len() == 0 ==> bubble_log(s) == seq![done_action()],
        s.len() == 0 ==> merge_sort_log(s) == seq![done_action()],
        s.len() == 0 ==> parallel_log(s, tasks) == seq![done_action()],
{
    lemma_bubble_passes_no_done(s, 0, s.len() as int);
    lemma_single_done(bubble_passes(s, 0, s.len() as int).0);
    lemma_msort_no_done(s, 0, s.len() as int, 0, 0, 0);
    lemma_single_done(msort(s, 0, s.len() as int, 0, 0, 0).0);
    let n = s.len() as int;
    if n == 0 {
        assert(bubble_log(s) =~= seq![done_action()]);
        assert(merge_sort_log(s) =~= seq![done_action()]);
        assert(no_done(Seq::<Action>::empty()));
        lemma_single_done(Seq::<Action>::empty());
        assert(parallel_log(s, tasks) =~= Seq::<Action>::empty().push(done_action()));
    } else {
        let t = crate::parallel::task_count(n, tasks);
        let cs = crate::parallel::chunk_len(n, t);
        let p = chunk_phase(s, cs, t);
        lemma_chunk_phase_no_done(s, cs, t);
        lemma_rounds_no_done(p.0, longest(p.0) as int);
        lemma_tournament_no_done(p.1, n, cs, 1, t);
        lemma_no_done_concat(interleave(p.0), tournament(p.1, n, cs, 1, t));
        lemma_single_done(interleave(p.0) + tournament(p.1, n, cs, 1, t));
        assert(parallel_log(s, tasks) =~= (interleave(p.0) + tournament(p.1, n, cs, 1, t)).push(
            done_action(),
        ));
    }
}

/// Generating a log twice from the same input gives the same log.
pub proof fn lemma_deterministic(s1: Seq<u32>, s2: Seq<u32>, tasks1: int, tasks2: int)
    requires
        s1 == s2,
        tasks1 == tasks2,
    ensures
        bubble_log(s1) == bubble_log(s2),
        merge_sort_log(s1) == merge_sort_log(s2),
        parallel_log(s1, tasks1) == parallel_log(s2, tasks2),
{
}

/// A tick never moves the cursor back nor lowers the peak memory, and the
/// peak stays at or above the current memory.
pub proof fn lemma_tick_monotone(v: EngineView, dt: u64)
    requires
        v.wf(),
    ensures
        v.tick(dt).cursor >= v.cursor,
        v.tick(dt).peak_memory >= v.peak_memory,
        v.tick(dt).peak_memory >= v.tick(dt).current_memory,
        v.tick(dt).wf(),
{
    if v.cursor < v.actions.len() && v.fits(v.actions[v.cursor as int]) {
        let a = v.actions[v.cursor as int];
        let timed = EngineView {
            time_elapsed: crate::engine::sat_add(v.time_elapsed, dt),
            step_timer: crate::engine::sat_add(v.step_timer, dt),
            ..v
        };
        crate::engine::lemma_apply_wf(timed, a);
    } else if v.cursor >= v.actions.len() {
        assert(crate::engine::bar_values(crate::engine::all_sorted(v.bars)) =~= crate::engine::bar_values(v.bars));
    }
}


/// Replaying a generator's full log against its input yields a
/// non-descending sequence, for every input; and it is the input's own
/// values, so the replay is exactly the input sorted.
pub proof fn lemma_replay_sorts(s: Seq<u32>, tasks: int)
    requires
        s.len() * 4 <= usize::MAX,
    ensures
        sorted(replay(s, bubble_log(s))),
        sorted(replay(s, merge_sort_log(s))),
        sorted(replay(s, parallel_log(s, tasks))),
        replay(s, bubble_log(s)).to_multiset() == s.to_multiset(),
        replay(s, merge_sort_log(s)).to_multiset() == s.to_multiset(),
        replay(s, parallel_log(s, tasks)).to_multiset() == s.to_multiset(),
{
    crate::bubble::lemma_bubble_log(s);
    assert(bubble_log(s).take(bubble_log(s).len() as int) =~= bubble_log(s));
    crate::merge::lemma_merge_sort_replay_sorted(s);
    crate::merge::lemma_merge_sort_replay_permutes(s);
    crate::parallel::lemma_parallel_replay_sorted(s, tasks);
}

/// Conservation: after every prefix of a log that never fills a scratch
/// region, the bar values are the input's multiset and no scratch value is
/// pending. That is every bubble log, and the merge logs of at most one
/// value; a merge of two or more values copies values into scratch while
/// the bars still hold them.
pub proof fn lemma_conservation(s: Seq<u32>, tasks: int, k: int)
    requires
        s.len() * 4 <= usize::MAX,
        0 <= k,
    ensures
        k <= bubble_log(s).len() ==> replay(s, bubble_log(s).take(k)).to_multiset()
            == s.to_multiset(),
        forall|x: int|
            0 <= x < bubble_log(s).len() ==> (#[trigger] bubble_log(s)[x]).kind
                != ActionKind::TempPush,
        s.len() <= 1 && k <= merge_sort_log(s).len() ==> replay(s, merge_sort_log(s).take(k))
            == s,
        s.len() <= 1 && k <= parallel_log(s, tasks).len() ==> replay(
            s,
            parallel_log(s, tasks).take(k),
        ) == s,
        s.len() <= 1 ==> merge_sort_log(s) == seq![done_action()],
        s.len() <= 1 ==> parallel_log(s, tasks) == seq![done_action()],
{
    crate::bubble::lemma_bubble_log(s);
    lemma_bubble_kinds(s);
    if s.len() <= 1 {
        let n = s.len() as int;
        assert(merge_sort_log(s) =~= seq![done_action()]);
        if n == 1 {
            let t = crate::parallel::task_count(n, tasks);
            let cs = crate::parallel::chunk_len(n, t);
            assert(t == 1);
            assert(cs == 1);
            let p = chunk_phase(s, cs, t);
            let p0 = chunk_phase(s, cs, 0);
            assert(p.0 =~= p0.0.push(Seq::<Action>::empty()));
            assert(p0.0 =~= Seq::<Seq<Action>>::empty());
            assert(p.0.drop_last() =~= Seq::<Seq<Action>>::empty());
            assert(longest(p.0.drop_last()) == 0);
            assert(p.0.last() =~= Seq::<Action>::empty());
            assert(longest(p.0) == 0);
            assert(interleave(p.0) =~= Seq::<Action>::empty());
            assert(tournament(p.1, n, cs, 1, t) =~= Seq::<Action>::empty());
        }
        assert(parallel_log(s, tasks) =~= seq![done_action()]);
        let d = seq![done_action()];
        crate::replay::lemma_replay_one(s, done_action());
        assert(d.take(0) =~= Seq::<Action>::empty());
        assert(d.take(1) =~= d);
    }
}

proof fn lemma_bubble_pass_kinds(s: Seq<u32>, j: int, end: int)
    ensures
        forall|x: int|
            0 <= x < bubble_pass(s, j, end).0.len() ==> (#[trigger] bubble_pass(s, j, end).0[x]).kind
                != ActionKind::TempPush,
    decreases end - j,
{
    if j < end {
        let t = if s[j] > s[j + 1] {
            s.update(j, s[j + 1]).update(j + 1, s[j])
        } else {
            s
        };
        lemma_bubble_pass_kinds(t, j + 1, end);
        let l = bubble_pass(s, j, end).0;
        let r = bubble_pass(t, j + 1, end).0;
        let h = l.len() - r.len();
        assert forall|x: int| 0 <= x < l.len() implies (#[trigger] l[x]).kind != ActionKind::TempPush by {
            if x >= h {
                assert(l[x] == r[x - h]);
            }
        }
    }
}

proof fn lemma_bubble_passes_kinds(s: Seq<u32>, i: int, n: int)
    ensures
        forall|x: int|
            0 <= x < bubble_passes(s, i, n).0.len() ==> (#[trigger] bubble_passes(s, i, n).0[x]).kind
                != ActionKind::TempPush,
    decreases n - i,
{
    if i < n {
        let p = bubble_pass(s, 0, n - 1 - i);
        lemma_bubble_pass_kinds(s, 0, n - 1 - i);
        lemma_bubble_passes_kinds(p.1, i + 1, n);
        let l = bubble_passes(s, i, n).0;
        let r = bubble_passes(p.1, i + 1, n).0;
        assert forall|x: int| 0 <= x < l.len() implies (#[trigger] l[x]).kind != ActionKind::TempPush by {
            if x >= p.0.len() {
                assert(l[x] == r[x - p.0.len()]);
            } else {
                assert(l[x] == p.0[x]);
            }
        }
    }
}

proof fn lemma_bubble_kinds(s: Seq<u32>)
    ensures
        forall|x: int|
            0 <= x < bubble_log(s).len() ==> (#[trigger] bubble_log(s)[x]).kind
                != ActionKind::TempPush,
{
    lemma_bubble_passes_kinds(s, 0, s.len() as int);
    let b = bubble_passes(s, 0, s.len() as int).0;
    assert forall|x: int| 0 <= x < bubble_log(s).len() implies (#[trigger] bubble_log(s)[x]).kind
        != ActionKind::TempPush by {
        if x < b.len() {
            assert(bubble_log(s)[x] == b[x]);
        }
    }
}


/// Every action of a generated log names only bars of its input: the
/// generators never emit an index out of range.
pub proof fn lemma_indices_in_range(s: Seq<u32>, tasks: int)
    requires
        s.len() * 4 <= usize::MAX,
    ensures
        log_within(bubble_log(s), 0, s.len() as int),
        log_within(merge_sort_log(s), 0, s.len() as int),
        log_within(parallel_log(s, tasks), 0, s.len() as int),
{
    let n = s.len() as int;
    crate::bubble::lemma_bubble_within(s);
    crate::merge::lemma_msort_within(s, 0, n, 0, 0, 0);
    let d = seq![done_action()];
    assert(crate::replay::log_within(d, 0, n));
    crate::replay::lemma_log_within_concat(msort(s, 0, n, 0, 0, 0).0, d, 0, n);
    assert(merge_sort_log(s) =~= msort(s, 0, n, 0, 0, 0).0 + d);
    crate::parallel::lemma_parallel_within(s, tasks);
}


/// In sequential mode a tick never meets an invariant violation: the log
/// the engine replays always fits its state.
pub proof fn lemma_sequential_ticks_succeed(v: EngineView)
    requires
        v.wf(),
        v.mode == crate::action::SortMode::Sequential,
    ensures
        v.tick_ok(),
{
    if v.cursor < v.actions.len() {
        let n = v.initial.len() as int;
        let c = v.cursor as int;
        let a = v.actions[c];
        lemma_indices_in_range(v.initial, v.num_threads as int);
        assert(crate::replay::names_within(a, 0, n));
        let rest = v.actions.subrange(c, v.actions.len() as int);
        assert(rest[0] == a);
        assert(crate::replay::scratch_ok(v.temp.len() as int, a, n));
        crate::engine::lemma_pending_empty(v.regions);
    }
}


/// In parallel mode too, a tick never meets an invariant violation.
pub proof fn lemma_parallel_ticks_succeed(v: EngineView)
    requires
        v.wf(),
        v.mode == crate::action::SortMode::Parallel,
    ensures
        v.tick_ok(),
{
    if v.cursor < v.actions.len() {
        let n = v.initial.len() as int;
        let c = v.cursor as int;
        let a = v.actions[c];
        lemma_indices_in_range(v.initial, v.num_threads as int);
        assert(crate::replay::names_within(a, 0, n));
        let rest = v.actions.subrange(c, v.actions.len() as int);
        assert(rest[0] == a);
        assert(crate::scratch::multi_ok(crate::engine::region_lens(v.regions), a, n));
        crate::engine::lemma_region_lens_total(v.regions);
    }
}

/// Every tick of a well-formed engine succeeds: the logs it generates never
/// name a missing bar or task, never write from an empty region, and never
/// hold more scratch values than there are bars.
pub proof fn lemma_ticks_succeed(v: EngineView)
    requires
        v.wf(),
    ensures
        v.tick_ok(),
{
    match v.mode {
        crate::action::SortMode::Sequential => lemma_sequential_ticks_succeed(v),
        crate::action::SortMode::Parallel => lemma_parallel_ticks_succeed(v),
    }
}


/// With eight values and four tasks the chunks hold two values each, and
/// the log is the interleaved chunk sorts, then round 1, then round 2, each
/// announced by its `MergePhase`, then the one `Done`.
pub proof fn lemma_eight_values_four_tasks(s: Seq<u32>)
    requires
        s.len() == 8,
    ensures
        crate::parallel::task_count(8, 4) == 4,
        crate::parallel::chunk_len(8, 4) == 2,
        ({
            let p = chunk_phase(s, 2, 4);
            let r1 = merge_round(p.1, 8, 2, 4, 0, 0);
            let r2 = merge_round(r1.1, 8, 4, 4, 0, 0);
            parallel_log(s, 4) == interleave(p.0) + seq![crate::action::phase_action(1)]
                + interleave(r1.0) + seq![crate::action::phase_action(2)] + interleave(r2.0)
                + seq![done_action()]
        }),
        crate::action::phase_action(1).value == 1,
        crate::action::phase_action(2).value == 2,
        crate::action::phase_action(1).kind == ActionKind::MergePhase,
{
    let p = chunk_phase(s, 2, 4);
    let r1 = merge_round(p.1, 8, 2, 4, 0, 0);
    let r2 = merge_round(r1.1, 8, 4, 4, 0, 0);
    assert(crate::parallel::chunk_len(8, 4) == 2);
    assert(tournament(r2.1, 8, 8, 3, 4) =~= Seq::<Action>::empty());
    let t2 = tournament(r1.1, 8, 4, 2, 4);
    assert(t2 =~= seq![crate::action::phase_action(2)] + interleave(r2.0));
    let t1 = tournament(p.1, 8, 2, 1, 4);
    assert(t1 =~= seq![crate::action::phase_action(1)] + interleave(r1.0) + t2);
    assert(parallel_log(s, 4) =~= interleave(p.0) + seq![crate::action::phase_action(1)]
        + interleave(r1.0) + seq![crate::action::phase_action(2)] + interleave(r2.0)
        + seq![done_action()]);
}

} // verus!
