//! The simulated parallel merge sort: chunk sorts interleaved, then a
//! tournament of rounds, each a set of interleaved merges.

use vstd::prelude::*;
use crate::action::{done_action, make_done, phase_action, sorted, Action, ActionKind, ELEMENT_SIZE};
use crate::interleave::{
    interleave, interleave_actions, lemma_interleave_point, lemma_interleave_within, lemma_interleave_untouched,
    sole_writer, views,
};
use crate::merge::{
    lemma_merge_log_clean, lemma_merge_log_tagged, lemma_msort_clean, lemma_msort_tagged, tagged,
    lemma_merge_log_replay, lemma_merge_log_within, lemma_merge_log_writes, lemma_msort_within, lemma_merged_len, lemma_merged_multiset,
    lemma_merged_sorted, lemma_msort, lemma_msort_len, lemma_msort_multiset, lemma_msort_writes,
    lemma_splice_multiset, merge, merge_log, merge_sort_recursive,
    merged, msort, splice,
};
use crate::scratch::{
    lemma_interleave_clean, lemma_multi_concat, lemma_total_cons, multi_after, multi_clean,
    multi_end, side_by_side, total, zeros,
};
use crate::replay::{
    held_end, runs_clean, lemma_log_within_concat, lemma_log_within_widen, log_within, names_within, inert, lemma_replay_concat, lemma_replay_inert, lemma_replay_len, no_swap, replay, writes_to,
    writes_within,
};

verus! {

pub open spec fn min(a: int, b: int) -> int {
    if a <= b {
        a
    } else {
        b
    }
}

/// Tasks actually used for `n` values: the request, at most `n`, at least one.
pub open spec fn task_count(n: int, requested: int) -> int {
    let m = min(requested, n);
    if m < 1 {
        1
    } else {
        m
    }
}

/// Values per chunk: `n` split into `tasks` chunks, rounded up.
pub open spec fn chunk_len(n: int, tasks: int) -> int {
    (n + tasks - 1) / tasks
}

/// The first `t` chunk sorts of `s` in chunks of `cs`: each task's log, and
/// the sequence with those chunks sorted.
pub open spec fn chunk_phase(s: Seq<u32>, cs: int, t: int) -> (Seq<Seq<Action>>, Seq<u32>)
    decreases t,
{
    if t <= 0 {
        (seq![], s)
    } else {
        let p = chunk_phase(s, cs, t - 1);
        let u = t - 1;
        let start = u * cs;
        if start >= s.len() {
            (p.0.push(seq![]), p.1)
        } else {
            let end = min(start + cs, s.len() as int);
            let m = msort(p.1.subrange(start, end), 0, end - start, start, 0, u as usize);
            (p.0.push(m.0), splice(p.1, start, m.1))
        }
    }
}

/// One tournament round from `left` on: merge logs of adjacent runs of
/// `step` values, tasks assigned round-robin from `k`, and the result.
pub open spec fn merge_round(arr: Seq<u32>, n: int, step: int, tasks: int, left: int, k: int) -> (
    Seq<Seq<Action>>,
    Seq<u32>,
)
    decreases if left < n {
        n - left
    } else {
        0
    },
{
    if left >= n || step <= 0 {
        (seq![], arr)
    } else {
        let mid = min(left + step, n);
        let right = min(left + 2 * step, n);
        if mid < right {
            let a = arr.subrange(left, mid);
            let b = arr.subrange(mid, right);
            let rest = merge_round(
                splice(arr, left, merged(a, b)),
                n,
                step,
                tasks,
                left + 2 * step,
                k + 1,
            );
            (seq![merge_log(a, b, left, (right - left) * 4, (k % tasks) as usize)] + rest.0, rest.1)
        } else {
            merge_round(arr, n, step, tasks, left + 2 * step, k)
        }
    }
}

/// Tournament rounds from run length `step` on, each announced by a
/// `MergePhase` carrying its number, until one run covers all `n` values.
pub open spec fn tournament(arr: Seq<u32>, n: int, step: int, level: int, tasks: int) -> Seq<Action>
    decreases if step < n {
        n - step
    } else {
        0
    },
{
    if step >= n || step <= 0 {
        seq![]
    } else {
        let r = merge_round(arr, n, step, tasks, 0, 0);
        seq![phase_action(level)] + interleave(r.0) + tournament(
            r.1,
            n,
            2 * step,
            level + 1,
            tasks,
        )
    }
}

/// The log of the simulated parallel merge sort of `s` with `requested` tasks.
pub open spec fn parallel_log(s: Seq<u32>, requested: int) -> Seq<Action> {
    let n = s.len() as int;
    if n == 0 {
        seq![done_action()]
    } else {
        let tasks = task_count(n, requested);
        let cs = chunk_len(n, tasks);
        let p = chunk_phase(s, cs, tasks);
        interleave(p.0) + tournament(p.1, n, cs, 1, tasks) + seq![done_action()]
    }
}

pub proof fn lemma_chunk_start_bound(t: int, tasks: int, n: int)
    requires
        0 <= t < tasks,
        1 <= tasks <= n,
    ensures
        0 <= t * chunk_len(n, tasks) <= 2 * n,
        chunk_len(n, tasks) >= 1,
{
    let cs = chunk_len(n, tasks);
    vstd::arithmetic::div_mod::lemma_fundamental_div_mod(n + tasks - 1, tasks);
    vstd::arithmetic::div_mod::lemma_mod_pos_bound(n + tasks - 1, tasks);
    assert(cs >= 1) by (nonlinear_arith)
        requires
            cs == (n + tasks - 1) / tasks,
            n + tasks - 1 >= tasks,
            tasks >= 1,
    {
        vstd::arithmetic::div_mod::lemma_div_is_ordered(tasks, n + tasks - 1, tasks);
        vstd::arithmetic::div_mod::lemma_div_by_self(tasks);
    }
    assert(t * cs <= tasks * cs) by (nonlinear_arith)
        requires
            t < tasks,
            cs >= 1,
    ;
    assert(0 <= t * cs) by (nonlinear_arith)
        requires
            t >= 0,
            cs >= 1,
    ;
}

/// Log of a merge sort split over `num_threads` simulated tasks: each sorts
/// its chunk, the chunk logs are interleaved, then a tournament of rounds
/// merges adjacent runs until one is left.
pub fn parallel_merge_sort_actions(values: &[u32], num_threads: usize) -> (actions: Vec<Action>)
    requires
        values@.len() * ELEMENT_SIZE <= usize::MAX,
    ensures
        actions@ == parallel_log(values@, num_threads as int),
        sorted(replay(values@, actions@)),
        replay(values@, actions@).to_multiset() == values@.to_multiset(),
        crate::action::ends_with_single_done(actions@),
{
    let actions = parallel_actions(values, num_threads);
    proof {
        crate::laws::lemma_replay_sorts(values@, num_threads as int);
        crate::laws::lemma_termination_shape(values@, num_threads as int);
    }
    actions
}

fn parallel_actions(values: &[u32], num_threads: usize) -> (actions: Vec<Action>)
    requires
        values@.len() * ELEMENT_SIZE <= usize::MAX,
    ensures
        actions@ == parallel_log(values@, num_threads as int),
{
    let n = values.len();
    if n == 0 {
        let mut only: Vec<Action> = Vec::new();
        only.push(make_done());
        proof {
            assert(only@ =~= parallel_log(values@, num_threads as int));
        }
        return only;
    }
    let num_threads = if num_threads < n {
        num_threads
    } else {
        n
    };
    let num_threads = if num_threads < 1 {
        1
    } else {
        num_threads
    };
    let chunk_size = (n + num_threads - 1) / num_threads;
    let ghost s = values@;
    let ghost cs = chunk_size as int;
    let mut thread_actions: Vec<Vec<Action>> = Vec::new();
    let mut arr: Vec<u32> = vstd::slice::slice_to_vec(values);
    let mut thread_id: usize = 0;
    while thread_id < num_threads
        invariant
            1 <= num_threads <= n,
            n == s.len(),
            n * 4 <= usize::MAX,
            cs == chunk_size,
            chunk_size == chunk_len(n as int, num_threads as int),
            thread_id <= num_threads,
            arr.len() == n,
            views(thread_actions@) == chunk_phase(s, cs, thread_id as int).0,
            arr@ == chunk_phase(s, cs, thread_id as int).1,
        decreases num_threads - thread_id,
    {
        proof {
            lemma_chunk_start_bound(thread_id as int, num_threads as int, n as int);
        }
        let start = thread_id * chunk_size;
        if start >= n {
            thread_actions.push(Vec::new());
            proof {
                assert(views(thread_actions@) =~= chunk_phase(s, cs, thread_id + 1).0);
            }
        } else {
            let end = if start + chunk_size < n {
                start + chunk_size
            } else {
                n
            };
            let mut actions: Vec<Action> = Vec::new();
            let mut current_memory: usize = 0;
            let mut chunk = copy_range(&arr, start, end);
            let ghost chunk0 = chunk@;
            parallel_merge_sort_chunk(
                &mut chunk,
                start,
                &mut actions,
                &mut current_memory,
                thread_id,
            );
            proof {
                lemma_msort_len(chunk0, 0, chunk0.len() as int, start as int, 0, thread_id);
            }
            let ghost arr0 = arr@;
            let mut k: usize = 0;
            while k < chunk.len()
                invariant
                    start + chunk.len() == end <= n,
                    arr.len() == n,
                    forall|x: int| 0 <= x < start ==> arr@[x] == arr0[x],
                    forall|x: int| start + k <= x < n ==> arr@[x] == arr0[x],
                    forall|x: int| start <= x < start + k ==> arr@[x] == chunk@[x - start],
                    k <= chunk.len(),
                decreases chunk.len() - k,
            {
                arr[start + k] = chunk[k];
                k += 1;
            }
            thread_actions.push(actions);
            proof {
                assert(arr@ =~= splice(arr0, start as int, chunk@));
                assert(views(thread_actions@) =~= chunk_phase(s, cs, thread_id + 1).0);
            }
        }
        thread_id += 1;
    }
    let ghost p = chunk_phase(s, cs, num_threads as int);
    let mut interleaved = interleave_actions(thread_actions.as_slice());
    let ghost head = interleaved@;
    let mut step = chunk_size;
    let mut merge_level: usize = 1;
    proof {
        lemma_chunk_start_bound(0, num_threads as int, n as int);
        assert(interleaved@ + tournament(arr@, n as int, step as int, 1, num_threads as int) =~= head
            + tournament(p.1, n as int, cs, 1, num_threads as int));
    }
    while step < n
        invariant
            1 <= num_threads <= n,
            n * 4 <= usize::MAX,
            1 <= merge_level <= step,
            arr.len() == n,
            interleaved@ + tournament(
                arr@,
                n as int,
                step as int,
                merge_level as int,
                num_threads as int,
            ) == head + tournament(p.1, n as int, cs, 1, num_threads as int),
        decreases if step < n {
            n - step
        } else {
            0
        },
    {
        let ghost before = interleaved@;
        let ghost arr0 = arr@;
        let ghost round = merge_round(arr0, n as int, step as int, num_threads as int, 0, 0);
        interleaved.push(
            Action {
                kind: ActionKind::MergePhase,
                i: 0,
                j: 0,
                value: #[verifier::truncate] (merge_level as u32),
                memory: 0,
                temp_idx: 0,
                thread_id: 0,
            },
        );
        let mut merge_thread_actions: Vec<Vec<Action>> = Vec::new();
        let mut thread_id: usize = 0;
        let mut left: usize = 0;
        proof {
            assert(views(merge_thread_actions@) + round.0 =~= round.0);
        }
        while left < n
            invariant
                1 <= num_threads <= n,
                n * 4 <= usize::MAX,
                1 <= step < n,
                arr.len() == n,
                thread_id <= left,
                left <= n + 2 * step,
                views(merge_thread_actions@) + merge_round(
                    arr@,
                    n as int,
                    step as int,
                    num_threads as int,
                    left as int,
                    thread_id as int,
                ).0 == round.0,
                merge_round(
                    arr@,
                    n as int,
                    step as int,
                    num_threads as int,
                    left as int,
                    thread_id as int,
                ).1 == round.1,
            decreases n + 2 * step - left,
        {
            let mid = if left + step < n {
                left + step
            } else {
                n
            };
            let right = if left + 2 * step < n {
                left + 2 * step
            } else {
                n
            };
            if mid < right {
                let ghost mta0 = views(merge_thread_actions@);
                let mut actions: Vec<Action> = Vec::new();
                let mut current_memory: usize = 0;
                let ghost a = arr@.subrange(left as int, mid as int);
                let ghost b = arr@.subrange(mid as int, right as int);
                merge(
                    &mut arr,
                    left,
                    mid,
                    right,
                    0,
                    &mut actions,
                    &mut current_memory,
                    thread_id % num_threads,
                );
                proof {
                    lemma_merged_len(a, b);
                    assert(actions@ =~= merge_log(
                        a,
                        b,
                        left as int,
                        (right - left) * 4,
                        (thread_id % num_threads) as usize,
                    ));
                }
                merge_thread_actions.push(actions);
                proof {
                    assert(views(merge_thread_actions@) =~= mta0.push(actions@));
                }
                thread_id += 1;
            }
            left += 2 * step;
        }
        let mut round_log = interleave_actions(merge_thread_actions.as_slice());
        interleaved.append(&mut round_log);
        proof {
            assert(views(merge_thread_actions@) =~= round.0);
            assert(interleaved@ + tournament(
                arr@,
                n as int,
                2 * step,
                merge_level + 1,
                num_threads as int,
            ) =~= before + tournament(
                arr0,
                n as int,
                step as int,
                merge_level as int,
                num_threads as int,
            ));
        }
        step *= 2;
        merge_level += 1;
    }
    interleaved.push(make_done());
    proof {
        assert(interleaved@ =~= parallel_log(values@, num_threads as int));
    }
    interleaved
}

/// A copy of `arr[start..end]`.
fn copy_range(arr: &Vec<u32>, start: usize, end: usize) -> (r: Vec<u32>)
    requires
        start <= end <= arr.len(),
    ensures
        r@ == arr@.subrange(start as int, end as int),
{
    let mut r: Vec<u32> = Vec::new();
    let mut k = start;
    while k < end
        invariant
            start <= k <= end <= arr.len(),
            r@ == arr@.subrange(start as int, k as int),
        decreases end - k,
    {
        r.push(arr[k]);
        proof {
            assert(r@ =~= arr@.subrange(start as int, k + 1));
        }
        k += 1;
    }
    r
}

/// Sorts one task's chunk, logging at `global_offset + index`.
fn parallel_merge_sort_chunk(
    arr: &mut Vec<u32>,
    global_offset: usize,
    actions: &mut Vec<Action>,
    current_memory: &mut usize,
    thread_id: usize,
)
    requires
        global_offset + old(arr).len() <= usize::MAX,
        *old(current_memory) + old(arr).len() * ELEMENT_SIZE <= usize::MAX,
    ensures
        final(actions)@ == old(actions)@ + msort(
            old(arr)@,
            0,
            old(arr)@.len() as int,
            global_offset as int,
            *old(current_memory) as int,
            thread_id,
        ).0,
        final(arr)@ == msort(
            old(arr)@,
            0,
            old(arr)@.len() as int,
            global_offset as int,
            *old(current_memory) as int,
            thread_id,
        ).1,
        *final(current_memory) == *old(current_memory),
{
    let n = arr.len();
    if n <= 1 {
        proof {
            assert(actions@ =~= actions@ + seq![]);
        }
        return ;
    }
    merge_sort_recursive(arr, 0, n, global_offset, actions, current_memory, thread_id);
}


/// From `left` on, every block of `size` values (the last one possibly
/// shorter) is sorted.
pub open spec fn sorted_blocks(arr: Seq<u32>, left: int, n: int, size: int) -> bool
    decreases (if left < n {
        n - left
    } else {
        0
    }),
{
    if left >= n || size <= 0 {
        true
    } else {
        sorted(arr.subrange(left, min(left + size, n))) && sorted_blocks(arr, left + size, n, size)
    }
}

proof fn lemma_sorted_blocks_frame(a1: Seq<u32>, a2: Seq<u32>, left: int, n: int, size: int)
    requires
        0 <= left,
        a1.len() == n,
        a2.len() == n,
        forall|y: int| left <= y < n ==> a1[y] == a2[y],
        sorted_blocks(a1, left, n, size),
    ensures
        sorted_blocks(a2, left, n, size),
    decreases (if left < n {
        n - left
    } else {
        0
    }),
{
    if left < n && size > 0 {
        assert(a1.subrange(left, min(left + size, n)) =~= a2.subrange(left, min(left + size, n)));
        lemma_sorted_blocks_frame(a1, a2, left + size, n, size);
    }
}

/// Bar `y` after a round: one merge log alone decides it, or no log
/// touches it and it keeps its value.
pub open spec fn round_bar(
    logs: Seq<Seq<Action>>,
    res: Seq<u32>,
    arr: Seq<u32>,
    g: Seq<u32>,
    y: int,
) -> bool {
    (exists|v: int|
        0 <= v < logs.len() && #[trigger] sole_writer(logs, v, y) && replay(g, logs[v])[y] == res[y])
        || ((forall|v: int, j: int|
        0 <= v < logs.len() && 0 <= j < logs[v].len() ==> !writes_to(#[trigger] logs[v][j], y))
        && res[y] == arr[y])
}

/// What `lemma_merge_round` establishes of a round from `left` on.
pub open spec fn round_facts(
    arr: Seq<u32>,
    n: int,
    step: int,
    tasks: int,
    left: int,
    k: int,
    g: Seq<u32>,
) -> bool {
    let logs = merge_round(arr, n, step, tasks, left, k).0;
    let res = merge_round(arr, n, step, tasks, left, k).1;
    &&& res.len() == n
    &&& forall|y: int| 0 <= y < left && y < n ==> res[y] == arr[y]
    &&& forall|v: int|
        0 <= v < logs.len() ==> no_swap(#[trigger] logs[v]) && writes_within(logs[v], left, n)
    &&& forall|y: int| left <= y < n ==> #[trigger] round_bar(logs, res, arr, g, y)
    &&& sorted_blocks(res, left, n, 2 * step)
}

/// One tournament round from `left` on: its result, which bars each merge
/// log alone decides, and the blocks of twice the run length it leaves
/// sorted. `g` is any sequence that holds the round's input from `left` on.
#[verifier::spinoff_prover]
#[verifier::rlimit(40)]
proof fn lemma_merge_round(
    arr: Seq<u32>,
    n: int,
    step: int,
    tasks: int,
    left: int,
    k: int,
    g: Seq<u32>,
)
    requires
        0 <= left,
        1 <= step,
        arr.len() == n,
        g.len() == n,
        n * 4 <= usize::MAX,
        forall|y: int| left <= y < n ==> g[y] == arr[y],
        sorted_blocks(arr, left, n, step),
    ensures
        round_facts(arr, n, step, tasks, left, k, g),
    decreases (if left < n {
        n - left
    } else {
        0
    }),
{
    let (logs, res) = merge_round(arr, n, step, tasks, left, k);
    if left >= n {
        assert(logs.len() == 0);
        assert(res == arr);
        assert(sorted_blocks(res, left, n, 2 * step));
        assert(round_facts(arr, n, step, tasks, left, k, g));
    } else {
        let mid = min(left + step, n);
        let right = min(left + 2 * step, n);
        if mid < right {
            let a = arr.subrange(left, mid);
            let b = arr.subrange(mid, right);
            let m = merged(a, b);
            lemma_merged_len(a, b);
            let next = splice(arr, left, m);
            assert(sorted(a));
            assert(sorted_blocks(arr, left + step, n, step));
            assert(sorted(b));
            lemma_merged_sorted(a, b);
            assert(next.len() == n);
            lemma_sorted_blocks_frame(arr, next, left + 2 * step, n, step);
            lemma_merge_round(next, n, step, tasks, left + 2 * step, k + 1, g);
            let (rest, res2) = merge_round(next, n, step, tasks, left + 2 * step, k + 1);
            assert(res == res2);
            let ml = merge_log(a, b, left, (right - left) * 4, (k % tasks) as usize);
            assert(logs == seq![ml] + rest);
            lemma_merge_log_writes(a, b, left, (right - left) * 4, (k % tasks) as usize);
            lemma_merge_log_replay(g, a, b, left, (right - left) * 4, (k % tasks) as usize);
            assert forall|v: int| 0 <= v < logs.len() implies no_swap(#[trigger] logs[v])
                && writes_within(logs[v], left, n) by {
                if v > 0 {
                    assert(logs[v] == rest[v - 1]);
                }
            }
            assert forall|y: int| left <= y < n implies #[trigger] round_bar(logs, res, arr, g, y) by {
                if y < right {
                    assert forall|v: int, j: int|
                        0 <= v < logs.len() && v != 0 && 0 <= j < logs[v].len() implies !writes_to(
                        #[trigger] logs[v][j],
                        y,
                    ) by {
                        assert(logs[v] == rest[v - 1]);
                        assert(writes_within(rest[v - 1], left + 2 * step, n));
                    }
                    assert forall|v: int| 0 <= v < logs.len() implies no_swap(#[trigger] logs[v]) by {
                        if v > 0 {
                            assert(logs[v] == rest[v - 1]);
                        }
                    }
                    assert(sole_writer(logs, 0, y));
                    assert(replay(g, logs[0])[y] == res[y]);
                } else {
                    assert(res2[y] == res[y]);
                    assert(round_bar(rest, res2, next, g, y));
                    assert forall|j: int| 0 <= j < ml.len() implies !writes_to(#[trigger] ml[j], y) by {
                        assert(writes_within(ml, left, left + a.len() + b.len()));
                    }
                    if exists|v: int|
                        0 <= v < rest.len() && #[trigger] sole_writer(rest, v, y) && replay(
                            g,
                            rest[v],
                        )[y] == res2[y] {
                        let v = choose|v: int|
                            0 <= v < rest.len() && #[trigger] sole_writer(rest, v, y) && replay(
                                g,
                                rest[v],
                            )[y] == res2[y];
                        assert forall|w: int| 0 <= w < logs.len() implies no_swap(#[trigger] logs[w]) by {
                            if w > 0 {
                                assert(logs[w] == rest[w - 1]);
                            }
                        }
                        assert forall|w: int, j: int|
                            0 <= w < logs.len() && w != v + 1 && 0 <= j < logs[w].len() implies !writes_to(
                            #[trigger] logs[w][j],
                            y,
                        ) by {
                            if w > 0 {
                                assert(logs[w] == rest[w - 1]);
                            } else {
                                assert(logs[w] == ml);
                            }
                        }
                        assert(sole_writer(logs, v + 1, y));
                        assert(logs[v + 1] == rest[v]);
                    } else {
                        assert(forall|v: int, j: int|
                            0 <= v < rest.len() && 0 <= j < rest[v].len() ==> !writes_to(
                                #[trigger] rest[v][j],
                                y,
                            ));
                        assert(res2[y] == next[y]);
                        assert(next[y] == arr[y]);
                        assert forall|w: int, j: int|
                            0 <= w < logs.len() && 0 <= j < logs[w].len() implies !writes_to(
                            #[trigger] logs[w][j],
                            y,
                        ) by {
                            if w > 0 {
                                assert(logs[w] == rest[w - 1]);
                                assert(logs[w][j] == rest[w - 1][j]);
                            } else {
                                assert(logs[w] == ml);
                            }
                        }
                    }
                }
            }
            assert(res.subrange(left, min(left + 2 * step, n)) =~= m);
            assert(sorted_blocks(res, left + 2 * step, n, 2 * step));
            assert(sorted_blocks(res, left, n, 2 * step));
            assert forall|y: int| 0 <= y < left && y < n implies res[y] == arr[y] by {
                assert(res2[y] == next[y]);
            }
            assert(round_facts(arr, n, step, tasks, left, k, g));
        } else {
            assert(left + 2 * step >= n);
            assert(merge_round(arr, n, step, tasks, left + 2 * step, k).0 =~= Seq::<Seq<Action>>::empty());
            assert(merge_round(arr, n, step, tasks, left + 2 * step, k).1 == arr);
            assert(logs.len() == 0);
            assert(res == arr);
            assert(arr.subrange(left, min(left + step, n)) == res.subrange(left, min(left + 2 * step, n)));
            assert(sorted_blocks(res, left + 2 * step, n, 2 * step));
            assert(sorted_blocks(res, left, n, 2 * step));
            assert forall|y: int| left <= y < n implies #[trigger] round_bar(logs, res, arr, g, y) by {
                assert(res[y] == arr[y]);
            }
            assert(round_facts(arr, n, step, tasks, left, k, g));
        }
    }
}


/// Replaying a round's merged log turns the round's input into its result.
proof fn lemma_round_replay(arr: Seq<u32>, n: int, step: int, tasks: int)
    requires
        1 <= step,
        arr.len() == n,
        n * 4 <= usize::MAX,
        sorted_blocks(arr, 0, n, step),
    ensures
        replay(arr, interleave(merge_round(arr, n, step, tasks, 0, 0).0)) == merge_round(
            arr,
            n,
            step,
            tasks,
            0,
            0,
        ).1,
        sorted_blocks(merge_round(arr, n, step, tasks, 0, 0).1, 0, n, 2 * step),
{
    let (logs, res) = merge_round(arr, n, step, tasks, 0, 0);
    lemma_merge_round(arr, n, step, tasks, 0, 0, arr);
    let out = replay(arr, interleave(logs));
    lemma_replay_len(arr, interleave(logs));
    assert forall|y: int| 0 <= y < n implies out[y] == res[y] by {
        assert(round_bar(logs, res, arr, arr, y));
        if exists|v: int|
            0 <= v < logs.len() && #[trigger] sole_writer(logs, v, y) && replay(arr, logs[v])[y]
                == res[y] {
            let v = choose|v: int|
                0 <= v < logs.len() && #[trigger] sole_writer(logs, v, y) && replay(arr, logs[v])[y]
                    == res[y];
            lemma_interleave_point(logs, v, y, arr);
        } else {
            assert(forall|v: int| 0 <= v < logs.len() ==> no_swap(#[trigger] logs[v]));
            lemma_interleave_untouched(logs, y, arr);
        }
    }
    assert(out =~= res);
}

/// The tournament from runs of `step` sorted values on leaves them sorted.
proof fn lemma_tournament_sorted(arr: Seq<u32>, n: int, step: int, level: int, tasks: int)
    requires
        1 <= step,
        arr.len() == n,
        n * 4 <= usize::MAX,
        sorted_blocks(arr, 0, n, step),
    ensures
        sorted(replay(arr, tournament(arr, n, step, level, tasks))),
        replay(arr, tournament(arr, n, step, level, tasks)).to_multiset() == arr.to_multiset(),
    decreases (if step < n {
        n - step
    } else {
        0
    }),
{
    if step >= n {
        assert(tournament(arr, n, step, level, tasks) =~= Seq::<Action>::empty());
        if n > 0 {
            assert(arr.subrange(0, min(step, n)) =~= arr);
        } else {
            assert(arr.len() == 0);
        }
    } else {
        let r = merge_round(arr, n, step, tasks, 0, 0);
        lemma_round_replay(arr, n, step, tasks);
        let ph = seq![phase_action(level)];
        let rest = tournament(r.1, n, 2 * step, level + 1, tasks);
        assert(tournament(arr, n, step, level, tasks) == ph + interleave(r.0) + rest);
        assert(inert(ph[0]));
        lemma_replay_inert(arr, ph);
        lemma_replay_concat(arr, ph, interleave(r.0));
        lemma_replay_concat(arr, ph + interleave(r.0), rest);
        lemma_merge_round(arr, n, step, tasks, 0, 0, arr);
        lemma_merge_round_multiset(arr, n, step, tasks, 0, 0);
        lemma_tournament_sorted(r.1, n, 2 * step, level + 1, tasks);
    }
}

proof fn lemma_chunk_arith(u: int, v: int, cs: int)
    requires
        0 <= u < v,
        1 <= cs,
    ensures
        u * cs + cs <= v * cs,
        (u + 1) * cs == u * cs + cs,
        0 <= u * cs,
{
    assert(u * cs + cs <= v * cs) by (nonlinear_arith)
        requires
            u < v,
            1 <= cs,
    ;
    assert((u + 1) * cs == u * cs + cs) by (nonlinear_arith);
    assert(0 <= u * cs) by (nonlinear_arith)
        requires
            0 <= u,
            1 <= cs,
    ;
}

/// The chunk phase after `t` tasks: which task's log decides each bar, the
/// bars past the sorted chunks untouched, and each chunk sorted.
proof fn lemma_chunk_phase(s: Seq<u32>, cs: int, t: int)
    requires
        1 <= cs,
        0 <= t,
        s.len() * 4 <= usize::MAX,
    ensures
        ({
            let (logs, arr) = chunk_phase(s, cs, t);
            let n = s.len() as int;
            &&& logs.len() == t
            &&& arr.len() == n
            &&& forall|v: int|
                0 <= v < t ==> no_swap(#[trigger] logs[v]) && writes_within(logs[v], v * cs, v * cs + cs)
            &&& forall|v: int, y: int|
                0 <= v < t && v * cs <= y < v * cs + cs && y < n ==> #[trigger] arr[y] == replay(
                    s,
                    #[trigger] logs[v],
                )[y]
            &&& forall|y: int| t * cs <= y < n ==> #[trigger] arr[y] == s[y]
            &&& forall|v: int|
                0 <= v < t && v * cs < n ==> sorted(
                    #[trigger] arr.subrange(v * cs, min(v * cs + cs, n)),
                )
        }),
    decreases t,
{
    let n = s.len() as int;
    let (logs, arr) = chunk_phase(s, cs, t);
    if t > 0 {
        lemma_chunk_phase(s, cs, t - 1);
        let p = chunk_phase(s, cs, t - 1);
        let u = t - 1;
        let start = u * cs;
        lemma_chunk_arith(u, t, cs);
        if start >= n {
            assert(logs == p.0.push(seq![]));
            assert(arr == p.1);
            assert forall|v: int| 0 <= v < t implies no_swap(#[trigger] logs[v]) && writes_within(
                logs[v],
                v * cs,
                v * cs + cs,
            ) by {
                if v < u {
                    assert(logs[v] == p.0[v]);
                }
            }
            assert forall|v: int, y: int|
                0 <= v < t && v * cs <= y < v * cs + cs && y < n implies #[trigger] arr[y] == replay(
                s,
                #[trigger] logs[v],
            )[y] by {
                if v < u {
                    assert(logs[v] == p.0[v]);
                } else {
                    assert(v * cs == start);
                }
            }
            assert forall|v: int| 0 <= v < t && v * cs < n implies sorted(
                #[trigger] arr.subrange(v * cs, min(v * cs + cs, n)),
            ) by {
                if v < u {
                    assert(logs[v] == p.0[v]);
                }
            }
        } else {
            let end = min(start + cs, n);
            let chunk = p.1.subrange(start, end);
            let m = msort(chunk, 0, end - start, start, 0, u as usize);
            assert forall|x: int| 0 <= x < end - start implies s[start + x] == #[trigger] chunk[x] by {
                assert(p.1[start + x] == s[start + x]);
            }
            lemma_msort(chunk, 0, end - start, start, 0, u as usize, s);
            lemma_msort_writes(chunk, 0, end - start, start, 0, u as usize);
            assert(logs == p.0.push(m.0));
            assert(arr == splice(p.1, start, m.1));
            assert forall|v: int| 0 <= v < t implies no_swap(#[trigger] logs[v]) && writes_within(
                logs[v],
                v * cs,
                v * cs + cs,
            ) by {
                if v < u {
                    assert(logs[v] == p.0[v]);
                }
            }
            assert forall|v: int, y: int|
                0 <= v < t && v * cs <= y < v * cs + cs && y < n implies #[trigger] arr[y] == replay(
                s,
                #[trigger] logs[v],
            )[y] by {
                if v < u {
                    assert(logs[v] == p.0[v]);
                    lemma_chunk_arith(v, u, cs);
                    assert(arr[y] == p.1[y]);
                } else {
                    assert(v * cs == start);
                    assert(arr[y] == m.1[y - start]);
                }
            }
            assert forall|y: int| t * cs <= y < n implies #[trigger] arr[y] == s[y] by {
                assert(arr[y] == p.1[y]);
            }
            assert forall|v: int| 0 <= v < t && v * cs < n implies sorted(
                #[trigger] arr.subrange(v * cs, min(v * cs + cs, n)),
            ) by {
                if v < u {
                    lemma_chunk_arith(v, u, cs);
                    assert(arr.subrange(v * cs, min(v * cs + cs, n)) =~= p.1.subrange(
                        v * cs,
                        min(v * cs + cs, n),
                    ));
                } else {
                    assert(v * cs == start);
                    assert(arr.subrange(v * cs, min(v * cs + cs, n)) =~= m.1.subrange(
                        0,
                        end - start,
                    ));
                }
            }
        }
    } else {
        assert(forall|y: int| t * cs <= y < n ==> #[trigger] arr[y] == s[y]);
    }
}

/// Chunks that are each sorted make sorted blocks of the chunk length.
proof fn lemma_blocks_from_chunks(arr: Seq<u32>, cs: int, n: int, v: int)
    requires
        1 <= cs,
        0 <= v,
        arr.len() == n,
        forall|w: int|
            0 <= w && w * cs < n ==> sorted(#[trigger] arr.subrange(w * cs, min(w * cs + cs, n))),
    ensures
        sorted_blocks(arr, v * cs, n, cs),
    decreases (if v * cs < n {
        n - v * cs
    } else {
        0
    }),
{
    lemma_chunk_arith(v, v + 1, cs);
    if v * cs < n {
        assert(sorted(arr.subrange(v * cs, min(v * cs + cs, n))));
        lemma_blocks_from_chunks(arr, cs, n, v + 1);
    }
}


/// Replaying the simulated parallel merge sort log of `s` leaves `s` sorted.
pub proof fn lemma_parallel_replay_sorted(s: Seq<u32>, requested: int)
    requires
        s.len() * 4 <= usize::MAX,
    ensures
        sorted(replay(s, parallel_log(s, requested))),
        replay(s, parallel_log(s, requested)).to_multiset() == s.to_multiset(),
{
    let n = s.len() as int;
    if n == 0 {
        assert(parallel_log(s, requested) == seq![done_action()]);
        assert(inert(done_action()));
        lemma_replay_inert(s, seq![done_action()]);
    } else {
        let t = task_count(n, requested);
        let cs = chunk_len(n, t);
        lemma_chunk_start_bound(0, t, n);
        vstd::arithmetic::div_mod::lemma_fundamental_div_mod(n + t - 1, t);
        vstd::arithmetic::div_mod::lemma_mod_pos_bound(n + t - 1, t);
        assert(t * cs >= n);
        let (logs, arr) = chunk_phase(s, cs, t);
        lemma_chunk_phase(s, cs, t);
        let head = interleave(logs);
        let out = replay(s, head);
        lemma_replay_len(s, head);
        assert forall|y: int| 0 <= y < n implies out[y] == arr[y] by {
            let u = y / cs;
            vstd::arithmetic::div_mod::lemma_fundamental_div_mod(y, cs);
            vstd::arithmetic::div_mod::lemma_mod_pos_bound(y, cs);
            assert(u * cs <= y < u * cs + cs) by (nonlinear_arith)
                requires
                    y == cs * u + y % cs,
                    0 <= y % cs < cs,
            ;
            assert(0 <= u) by (nonlinear_arith)
                requires
                    u * cs <= y,
                    y < u * cs + cs,
                    0 <= y,
                    1 <= cs,
            ;
            if u >= t {
                assert(u * cs >= t * cs) by (nonlinear_arith)
                    requires
                        u >= t,
                        cs >= 1,
                ;
            }
            assert forall|v: int, k: int|
                0 <= v < logs.len() && v != u && 0 <= k < logs[v].len() implies !writes_to(
                #[trigger] logs[v][k],
                y,
            ) by {
                assert(writes_within(logs[v], v * cs, v * cs + cs));
                if v < u {
                    lemma_chunk_arith(v, u, cs);
                } else {
                    lemma_chunk_arith(u, v, cs);
                }
            }
            assert(sole_writer(logs, u, y));
            lemma_interleave_point(logs, u, y, s);
            assert(arr[y] == replay(s, logs[u])[y]);
        }
        assert(out =~= arr);
        assert forall|w: int| 0 <= w && w * cs < n implies sorted(
            #[trigger] arr.subrange(w * cs, min(w * cs + cs, n)),
        ) by {
            if w >= t {
                assert(w * cs >= t * cs) by (nonlinear_arith)
                    requires
                        w >= t,
                        cs >= 1,
                ;
            }
        }
        lemma_blocks_from_chunks(arr, cs, n, 0);
        lemma_chunk_phase_multiset(s, cs, t);
        lemma_tournament_sorted(arr, n, cs, 1, t);
        let tour = tournament(arr, n, cs, 1, t);
        let d = seq![done_action()];
        assert(parallel_log(s, requested) == head + tour + d);
        lemma_replay_concat(s, head, tour);
        lemma_replay_concat(s, head + tour, d);
        assert(inert(d[0]));
        lemma_replay_inert(replay(s, head + tour), d);
    }
}


/// A round rearranges the values of its input.
proof fn lemma_merge_round_multiset(arr: Seq<u32>, n: int, step: int, tasks: int, left: int, k: int)
    requires
        0 <= left,
        1 <= step,
        arr.len() == n,
    ensures
        merge_round(arr, n, step, tasks, left, k).1.to_multiset() == arr.to_multiset(),
        merge_round(arr, n, step, tasks, left, k).1.len() == n,
    decreases (if left < n {
        n - left
    } else {
        0
    }),
{
    if left < n {
        let mid = min(left + step, n);
        let right = min(left + 2 * step, n);
        if mid < right {
            let a = arr.subrange(left, mid);
            let b = arr.subrange(mid, right);
            lemma_merged_len(a, b);
            lemma_merged_multiset(a, b);
            assert(arr.subrange(left, right) =~= a + b);
            vstd::seq_lib::lemma_multiset_commutative(a, b);
            lemma_splice_multiset(arr, left, merged(a, b));
            lemma_merge_round_multiset(
                splice(arr, left, merged(a, b)),
                n,
                step,
                tasks,
                left + 2 * step,
                k + 1,
            );
        } else {
            lemma_merge_round_multiset(arr, n, step, tasks, left + 2 * step, k);
        }
    }
}

/// The chunk phase rearranges the values of its input.
proof fn lemma_chunk_phase_multiset(s: Seq<u32>, cs: int, t: int)
    requires
        1 <= cs,
        0 <= t,
    ensures
        chunk_phase(s, cs, t).1.to_multiset() == s.to_multiset(),
        chunk_phase(s, cs, t).1.len() == s.len(),
    decreases t,
{
    if t > 0 {
        lemma_chunk_phase_multiset(s, cs, t - 1);
        let p = chunk_phase(s, cs, t - 1);
        let u = t - 1;
        let start = u * cs;
        lemma_chunk_arith(u, t, cs);
        if start < s.len() {
            let end = min(start + cs, s.len() as int);
            let chunk = p.1.subrange(start, end);
            lemma_msort_multiset(chunk, 0, end - start, start, 0, u as usize);
            lemma_msort_len(chunk, 0, end - start, start, 0, u as usize);
            lemma_splice_multiset(
                p.1,
                start,
                msort(chunk, 0, end - start, start, 0, u as usize).1,
            );
        }
    }
}


proof fn lemma_chunk_phase_within(s: Seq<u32>, cs: int, t: int)
    requires
        1 <= cs,
        0 <= t,
        s.len() * 4 <= usize::MAX,
    ensures
        forall|v: int|
            0 <= v < chunk_phase(s, cs, t).0.len() ==> log_within(
                #[trigger] chunk_phase(s, cs, t).0[v],
                0,
                s.len() as int,
            ),
    decreases t,
{
    if t > 0 {
        lemma_chunk_phase_within(s, cs, t - 1);
        lemma_chunk_phase_multiset(s, cs, t - 1);
        lemma_chunk_phase(s, cs, t - 1);
        let p = chunk_phase(s, cs, t - 1);
        let u = t - 1;
        let start = u * cs;
        lemma_chunk_arith(u, t, cs);
        let logs = chunk_phase(s, cs, t).0;
        if start < s.len() {
            let end = min(start + cs, s.len() as int);
            let chunk = p.1.subrange(start, end);
            lemma_msort_within(chunk, 0, end - start, start, 0, u as usize);
            let m = msort(chunk, 0, end - start, start, 0, u as usize);
            lemma_log_within_widen(m.0, start, end, 0, s.len() as int);
            assert forall|v: int| 0 <= v < logs.len() implies log_within(
                #[trigger] logs[v],
                0,
                s.len() as int,
            ) by {
                if v < u {
                    assert(logs[v] == p.0[v]);
                }
            }
        } else {
            assert forall|v: int| 0 <= v < logs.len() implies log_within(
                #[trigger] logs[v],
                0,
                s.len() as int,
            ) by {
                if v < u {
                    assert(logs[v] == p.0[v]);
                }
            }
        }
    }
}

proof fn lemma_merge_round_within(arr: Seq<u32>, n: int, step: int, tasks: int, left: int, k: int)
    requires
        0 <= left,
        1 <= step,
        arr.len() == n,
        n <= usize::MAX,
    ensures
        forall|v: int|
            0 <= v < merge_round(arr, n, step, tasks, left, k).0.len() ==> log_within(
                #[trigger] merge_round(arr, n, step, tasks, left, k).0[v],
                0,
                n,
            ),
    decreases (if left < n {
        n - left
    } else {
        0
    }),
{
    if left < n {
        let mid = min(left + step, n);
        let right = min(left + 2 * step, n);
        if mid < right {
            let a = arr.subrange(left, mid);
            let b = arr.subrange(mid, right);
            lemma_merged_len(a, b);
            let next = splice(arr, left, merged(a, b));
            lemma_merge_round_within(next, n, step, tasks, left + 2 * step, k + 1);
            let ml = merge_log(a, b, left, (right - left) * 4, (k % tasks) as usize);
            lemma_merge_log_within(a, b, left, (right - left) * 4, (k % tasks) as usize);
            lemma_log_within_widen(ml, left, right, 0, n);
            let logs = merge_round(arr, n, step, tasks, left, k).0;
            let rest = merge_round(next, n, step, tasks, left + 2 * step, k + 1).0;
            assert forall|v: int| 0 <= v < logs.len() implies log_within(#[trigger] logs[v], 0, n) by {
                if v > 0 {
                    assert(logs[v] == rest[v - 1]);
                }
            }
        } else {
            lemma_merge_round_within(arr, n, step, tasks, left + 2 * step, k);
            assert(merge_round(arr, n, step, tasks, left, k) == merge_round(
                arr,
                n,
                step,
                tasks,
                left + 2 * step,
                k,
            ));
        }
    } else {
        assert(merge_round(arr, n, step, tasks, left, k).0.len() == 0);
    }
}

proof fn lemma_tournament_within(arr: Seq<u32>, n: int, step: int, level: int, tasks: int)
    requires
        1 <= step,
        arr.len() == n,
        n <= usize::MAX,
    ensures
        log_within(tournament(arr, n, step, level, tasks), 0, n),
    decreases (if step < n {
        n - step
    } else {
        0
    }),
{
    if step < n {
        let r = merge_round(arr, n, step, tasks, 0, 0);
        lemma_merge_round_within(arr, n, step, tasks, 0, 0);
        lemma_merge_round_multiset(arr, n, step, tasks, 0, 0);
        lemma_interleave_within(r.0, 0, n);
        lemma_tournament_within(r.1, n, 2 * step, level + 1, tasks);
        let ph = seq![phase_action(level)];
        assert(log_within(ph, 0, n));
        lemma_log_within_concat(ph, interleave(r.0), 0, n);
        lemma_log_within_concat(ph + interleave(r.0), tournament(r.1, n, 2 * step, level + 1, tasks), 0, n);
    } else {
        assert(tournament(arr, n, step, level, tasks) =~= Seq::<Action>::empty());
    }
}

/// A parallel merge sort log names only bars of `s`.
pub proof fn lemma_parallel_within(s: Seq<u32>, requested: int)
    requires
        s.len() * 4 <= usize::MAX,
    ensures
        log_within(parallel_log(s, requested), 0, s.len() as int),
{
    let n = s.len() as int;
    let d = seq![done_action()];
    assert(log_within(d, 0, n));
    if n > 0 {
        let t = task_count(n, requested);
        let cs = chunk_len(n, t);
        lemma_chunk_start_bound(0, t, n);
        let p = chunk_phase(s, cs, t);
        lemma_chunk_phase_within(s, cs, t);
        lemma_chunk_phase_multiset(s, cs, t);
        lemma_interleave_within(p.0, 0, n);
        lemma_tournament_within(p.1, n, cs, 1, t);
        lemma_log_within_concat(interleave(p.0), tournament(p.1, n, cs, 1, t), 0, n);
        lemma_log_within_concat(interleave(p.0) + tournament(p.1, n, cs, 1, t), d, 0, n);
    }
}


/// The `v`-th block pair from `left` has a right run to merge.
pub open spec fn merge_opens(n: int, step: int, left: int, v: int) -> bool {
    left + 2 * step * v + step < n
}

proof fn lemma_opens_below_tasks(n: int, step: int, tasks: int, v: int)
    requires
        merge_opens(n, step, 0, v),
        tasks * step >= n,
        step >= 1,
        v >= 0,
    ensures
        v < tasks,
{
    assert(v < tasks) by (nonlinear_arith)
        requires
            2 * step * v + step < n,
            tasks * step >= n,
            step >= 1,
            v >= 0,
    ;
}

/// Sizes of the merges of a round from `left` on.
pub open spec fn round_sizes(n: int, step: int, left: int) -> Seq<int>
    decreases (if left < n {
        n - left
    } else {
        0
    }),
{
    if left >= n || step <= 0 {
        seq![]
    } else {
        let mid = min(left + step, n);
        let right = min(left + 2 * step, n);
        if mid < right {
            seq![right - left] + round_sizes(n, step, left + 2 * step)
        } else {
            round_sizes(n, step, left + 2 * step)
        }
    }
}

proof fn lemma_round_side(arr: Seq<u32>, n: int, step: int, tasks: int, left: int, k: int)
    requires
        0 <= left,
        0 <= k,
        1 <= step,
        1 <= tasks,
        arr.len() == n,
        n <= usize::MAX,
    ensures
        ({
            let logs = merge_round(arr, n, step, tasks, left, k).0;
            let ms = round_sizes(n, step, left);
            &&& logs.len() == ms.len()
            &&& forall|v: int|
                0 <= v < logs.len() ==> tagged(#[trigger] logs[v], ((k + v) % tasks) as usize)
            &&& forall|v: int|
                0 <= v < logs.len() ==> runs_clean(0, #[trigger] logs[v], ms[v]) && held_end(
                    0,
                    logs[v],
                ) == 0 && ms[v] >= 0
            &&& total(ms) <= if left < n {
                n - left
            } else {
                0
            }
            &&& forall|v: int| 0 <= v < logs.len() ==> #[trigger] merge_opens(n, step, left, v)
        }),
    decreases (if left < n {
        n - left
    } else {
        0
    }),
{
    let logs = merge_round(arr, n, step, tasks, left, k).0;
    let ms = round_sizes(n, step, left);
    if left < n {
        let mid = min(left + step, n);
        let right = min(left + 2 * step, n);
        if mid < right {
            let a = arr.subrange(left, mid);
            let b = arr.subrange(mid, right);
            lemma_merged_len(a, b);
            let next = splice(arr, left, merged(a, b));
            lemma_round_side(next, n, step, tasks, left + 2 * step, k + 1);
            let rest = merge_round(next, n, step, tasks, left + 2 * step, k + 1).0;
            let rms = round_sizes(n, step, left + 2 * step);
            let task = (k % tasks) as usize;
            let ml = merge_log(a, b, left, (right - left) * 4, task);
            lemma_merge_log_tagged(a, b, left, (right - left) * 4, task);
            lemma_merge_log_clean(a, b, left, (right - left) * 4, task, right - left);
            assert(logs == seq![ml] + rest);
            assert(ms == seq![right - left] + rms);
            lemma_total_cons(right - left, rms);
            assert forall|v: int| 0 <= v < logs.len() implies tagged(
                #[trigger] logs[v],
                ((k + v) % tasks) as usize,
            ) by {
                if v > 0 {
                    assert(logs[v] == rest[v - 1]);
                    assert(k + 1 + (v - 1) == k + v);
                }
            }
            assert forall|v: int| 0 <= v < logs.len() implies runs_clean(0, #[trigger] logs[v], ms[v])
                && held_end(0, logs[v]) == 0 && ms[v] >= 0 by {
                if v > 0 {
                    assert(logs[v] == rest[v - 1]);
                    assert(ms[v] == rms[v - 1]);
                }
            }
            assert forall|v: int| 0 <= v < logs.len() implies #[trigger] merge_opens(n, step, left, v) by {
                if v > 0 {
                    assert(v - 1 < rest.len());
                    assert(merge_opens(n, step, left + 2 * step, v - 1));
                    assert(left + 2 * step + 2 * step * (v - 1) + step < n);
                    assert(2 * step + 2 * step * (v - 1) == 2 * step * v) by (nonlinear_arith);
                } else {
                    assert(left + step < n);
                    assert(2 * step * v == 0) by (nonlinear_arith)
                        requires
                            v == 0,
                    ;
                }
            }
        } else {
            lemma_round_side(arr, n, step, tasks, left + 2 * step, k);
            assert(left + 2 * step >= n);
            assert(merge_round(arr, n, step, tasks, left + 2 * step, k).0.len() == 0);
            assert(round_sizes(n, step, left + 2 * step).len() == 0);
            assert(logs.len() == 0);
            assert(ms.len() == 0);
            assert(total(ms) == 0);
        }
    } else {
        assert(ms.len() == 0);
        assert(total(ms) == 0);
    }
}

/// Sizes of the chunks of the first `t` tasks.
pub open spec fn chunk_sizes(n: int, cs: int, t: int) -> Seq<int> {
    Seq::new(
        t as nat,
        |u: int|
            if u * cs < n {
                min(u * cs + cs, n) - u * cs
            } else {
                0
            },
    )
}

proof fn lemma_chunk_side(s: Seq<u32>, cs: int, t: int)
    requires
        1 <= cs,
        0 <= t,
        s.len() * 4 <= usize::MAX,
    ensures
        side_by_side(chunk_phase(s, cs, t).0, chunk_sizes(s.len() as int, cs, t)),
        total(chunk_sizes(s.len() as int, cs, t)) == min(t * cs, s.len() as int),
    decreases t,
{
    let n = s.len() as int;
    let logs = chunk_phase(s, cs, t).0;
    let ms = chunk_sizes(n, cs, t);
    lemma_chunk_phase(s, cs, t);
    if t == 0 {
        assert(ms.len() == 0);
        assert(total(ms) == 0);
    } else {
        lemma_chunk_side(s, cs, t - 1);
        lemma_chunk_phase(s, cs, t - 1);
        let p = chunk_phase(s, cs, t - 1);
        let pms = chunk_sizes(n, cs, t - 1);
        let u = t - 1;
        let start = u * cs;
        lemma_chunk_arith(u, t, cs);
        assert(ms.drop_last() =~= pms);
        assert(ms.last() == ms[u]);
        if start < n {
            let end = min(start + cs, n);
            let chunk = p.1.subrange(start, end);
            let m = msort(chunk, 0, end - start, start, 0, u as usize);
            lemma_msort_tagged(chunk, 0, end - start, start, 0, u as usize);
            lemma_msort_clean(chunk, 0, end - start, start, 0, u as usize, end - start);
            assert(logs == p.0.push(m.0));
            assert(ms[u] == end - start);
            if u > 0 {
                lemma_chunk_arith(u - 1, u, cs);
            }
        } else {
            assert(logs == p.0.push(Seq::<Action>::empty()));
            assert(ms[u] == 0);
            assert(runs_clean(0, Seq::<Action>::empty(), 0));
            assert(held_end(0, Seq::<Action>::empty()) == 0);
            if u > 0 {
                lemma_chunk_arith(u - 1, u, cs);
            }
        }
        assert forall|v: int, j: int|
            0 <= v < logs.len() && 0 <= j < logs[v].len() implies (#[trigger] logs[v][j]).thread_id
            == v && logs[v][j].kind != ActionKind::Done by {
            if v < u {
                assert(logs[v] == p.0[v]);
            } else if start < n {
                let end = min(start + cs, n);
                let chunk = p.1.subrange(start, end);
                assert(tagged(msort(chunk, 0, end - start, start, 0, u as usize).0, u as usize));
                assert(u <= u * cs) by (nonlinear_arith)
                    requires
                        u >= 0,
                        cs >= 1,
                ;
                assert(logs[v] == msort(chunk, 0, end - start, start, 0, u as usize).0);
            }
        }
        assert forall|v: int| 0 <= v < logs.len() implies runs_clean(0, #[trigger] logs[v], ms[v])
            && held_end(0, logs[v]) == 0 && ms[v] >= 0 by {
            if v < u {
                assert(logs[v] == p.0[v]);
                assert(ms[v] == pms[v]);
            }
        }
    }
}

/// The tournament runs clean through `te` task regions, from empty back to
/// empty.
proof fn lemma_tournament_clean(arr: Seq<u32>, n: int, step: int, level: int, tasks: int, te: int)
    requires
        1 <= step,
        1 <= tasks <= te,
        tasks <= usize::MAX,
        tasks * step >= n,
        arr.len() == n,
        n * 4 <= usize::MAX,
    ensures
        multi_clean(zeros(te), tournament(arr, n, step, level, tasks), n),
        multi_end(zeros(te), tournament(arr, n, step, level, tasks)) == zeros(te),
    decreases (if step < n {
        n - step
    } else {
        0
    }),
{
    if step >= n {
        assert(tournament(arr, n, step, level, tasks) =~= Seq::<Action>::empty());
    } else {
        let r = merge_round(arr, n, step, tasks, 0, 0);
        let ms = round_sizes(n, step, 0);
        lemma_round_side(arr, n, step, tasks, 0, 0);
        lemma_merge_round_multiset(arr, n, step, tasks, 0, 0);
        assert forall|v: int, j: int|
            0 <= v < r.0.len() && 0 <= j < r.0[v].len() implies (#[trigger] r.0[v][j]).thread_id
            == v && r.0[v][j].kind != ActionKind::Done by {
            assert(tagged(r.0[v], ((0 + v) % tasks) as usize));
            lemma_opens_below_tasks(n, step, tasks, v);
            vstd::arithmetic::div_mod::lemma_small_mod(v as nat, tasks as nat);
        }
        assert(side_by_side(r.0, ms));
        if r.0.len() > 0 {
            lemma_opens_below_tasks(n, step, tasks, r.0.len() - 1);
        }
        lemma_interleave_clean(r.0, ms, te, n);
        let ph = seq![phase_action(level)];
        assert(ph.drop_first() =~= Seq::<Action>::empty());
        assert(ph[0] == phase_action(level));
        assert(multi_after(zeros(te), phase_action(level)) =~= zeros(te));
        assert(multi_clean(zeros(te), ph.drop_first(), n));
        assert(multi_end(zeros(te), ph.drop_first()) == zeros(te));
        assert(multi_clean(zeros(te), ph, n));
        assert(multi_end(zeros(te), ph) == zeros(te));
        assert(tasks * (2 * step) >= n) by (nonlinear_arith)
            requires
                tasks * step >= n,
                step >= 1,
                tasks >= 1,
        ;
        lemma_tournament_clean(r.1, n, 2 * step, level + 1, tasks, te);
        let rest = tournament(r.1, n, 2 * step, level + 1, tasks);
        lemma_multi_concat(zeros(te), ph, interleave(r.0), n);
        lemma_multi_concat(zeros(te), ph + interleave(r.0), rest, n);
        assert(tournament(arr, n, step, level, tasks) == ph + interleave(r.0) + rest);
    }
}

/// The parallel log of `s` for `requested` tasks runs clean through
/// `te >= requested` task regions.
pub proof fn lemma_parallel_clean(s: Seq<u32>, requested: int, te: int)
    requires
        s.len() * 4 <= usize::MAX,
        1 <= requested <= te,
    ensures
        multi_clean(zeros(te), parallel_log(s, requested), s.len() as int),
{
    let n = s.len() as int;
    let d = seq![done_action()];
    assert(d.drop_first() =~= Seq::<Action>::empty());
    assert(d[0] == done_action());
    if n == 0 {
        assert(parallel_log(s, requested) == d);
        assert(multi_clean(multi_after(zeros(te), done_action()), d.drop_first(), n));
    } else {
        let t = task_count(n, requested);
        let cs = chunk_len(n, t);
        lemma_chunk_start_bound(0, t, n);
        vstd::arithmetic::div_mod::lemma_fundamental_div_mod(n + t - 1, t);
        vstd::arithmetic::div_mod::lemma_mod_pos_bound(n + t - 1, t);
        assert(t * cs >= n);
        let p = chunk_phase(s, cs, t);
        lemma_chunk_side(s, cs, t);
        lemma_chunk_phase(s, cs, t);
        lemma_chunk_phase_multiset(s, cs, t);
        lemma_interleave_clean(p.0, chunk_sizes(n, cs, t), te, n);
        lemma_tournament_clean(p.1, n, cs, 1, t, te);
        let head = interleave(p.0);
        let tour = tournament(p.1, n, cs, 1, t);
        lemma_multi_concat(zeros(te), head, tour, n);
        assert(multi_clean(multi_after(zeros(te), done_action()), d.drop_first(), n));
        assert(multi_clean(zeros(te), d, n));
        lemma_multi_concat(zeros(te), head + tour, d, n);
        assert(parallel_log(s, requested) == head + tour + d);
    }
}

} // verus!
