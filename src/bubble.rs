//! The bubble sort generator: its log as a spec function, the code that
//! emits it, and why replaying it sorts.

use vstd::prelude::*;
use crate::action::{compare_action, done_action, make_done, sorted, swap_action, Action, ActionKind};
use crate::replay::{
    apply_values, conserving, lemma_log_within_concat, log_within, names_within, lemma_replay_concat, lemma_replay_conserves, lemma_replay_one,
    lemma_replay_two, replay,
};

verus! {

pub open spec fn swapped(s: Seq<u32>, j: int) -> Seq<u32> {
    s.update(j, s[j + 1]).update(j + 1, s[j])
}

/// One bubble pass over adjacent pairs `(j, j + 1)` for `j` in `[j, end)`:
/// the actions it emits and the shadow sequence it leaves.
pub open spec fn bubble_pass(s: Seq<u32>, j: int, end: int) -> (Seq<Action>, Seq<u32>)
    decreases end - j,
{
    if j >= end {
        (seq![], s)
    } else if s[j] > s[j + 1] {
        let r = bubble_pass(swapped(s, j), j + 1, end);
        (seq![compare_action(j, j + 1, 0, 0), swap_action(j, j + 1)] + r.0, r.1)
    } else {
        let r = bubble_pass(s, j + 1, end);
        (seq![compare_action(j, j + 1, 0, 0)] + r.0, r.1)
    }
}

/// Outer passes `i..n`; pass `i` stops before the `i` positions already settled.
pub open spec fn bubble_passes(s: Seq<u32>, i: int, n: int) -> (Seq<Action>, Seq<u32>)
    decreases n - i,
{
    if i >= n {
        (seq![], s)
    } else {
        let p = bubble_pass(s, 0, n - 1 - i);
        let r = bubble_passes(p.1, i + 1, n);
        (p.0 + r.0, r.1)
    }
}

/// The bubble sort log of `s`: every comparison, a swap for each pair found
/// out of order, and one terminal `Done`.
pub open spec fn bubble_log(s: Seq<u32>) -> Seq<Action> {
    bubble_passes(s, 0, s.len() as int).0.push(done_action())
}

/// Log of a bubble sort of `values`. Settled positions are not marked pass by
/// pass: the terminal `Done` settles them all, as in the merge generators.
pub fn bubble_sort_actions(values: &[u32]) -> (actions: Vec<Action>)
    ensures
        actions@ == bubble_log(values@),
        sorted(replay(values@, actions@)),
        replay(values@, actions@).to_multiset() == values@.to_multiset(),
        crate::action::ends_with_single_done(actions@),
{
    let mut arr: Vec<u32> = vstd::slice::slice_to_vec(values);
    let n = arr.len();
    let mut actions: Vec<Action> = Vec::new();
    let ghost total = bubble_passes(values@, 0, n as int).0;
    let mut i: usize = 0;
    while i < n
        invariant
            i <= n,
            arr.len() == n,
            actions@ + bubble_passes(arr@, i as int, n as int).0 == total,
        decreases n - i,
    {
        let end = n - 1 - i;
        let ghost start_actions = actions@;
        let ghost start_arr = arr@;
        let ghost pass = bubble_pass(start_arr, 0, end as int);
        let mut j: usize = 0;
        while j < end
            invariant
                j <= end,
                end == n - 1 - i,
                i < n,
                arr.len() == n,
                actions@ + bubble_pass(arr@, j as int, end as int).0 == start_actions + pass.0,
                bubble_pass(arr@, j as int, end as int).1 == pass.1,
            decreases end - j,
        {
            let ghost before = actions@;
            let ghost a0 = arr@;
            actions.push(
                Action {
                    kind: ActionKind::Compare,
                    i: j,
                    j: j + 1,
                    value: 0,
                    memory: 0,
                    temp_idx: 0,
                    thread_id: 0,
                },
            );
            if arr[j] > arr[j + 1] {
                let tmp = arr[j];
                arr[j] = arr[j + 1];
                arr[j + 1] = tmp;
                actions.push(
                    Action {
                        kind: ActionKind::Swap,
                        i: j,
                        j: j + 1,
                        value: 0,
                        memory: 0,
                        temp_idx: 0,
                        thread_id: 0,
                    },
                );
                proof {
                    assert(arr@ =~= swapped(a0, j as int));
                    let r = bubble_pass(arr@, j + 1, end as int);
                    assert(actions@ + r.0 =~= before + bubble_pass(a0, j as int, end as int).0);
                }
            } else {
                proof {
                    let r = bubble_pass(arr@, j + 1, end as int);
                    assert(actions@ + r.0 =~= before + bubble_pass(a0, j as int, end as int).0);
                }
            }
            j += 1;
        }
        proof {
            assert(actions@ + bubble_passes(arr@, i + 1, n as int).0 =~= start_actions
                + bubble_passes(start_arr, i as int, n as int).0);
        }
        i += 1;
    }
    actions.push(make_done());
    proof {
        assert(values@.len() == values.len());
        lemma_bubble_log(values@);
        assert(actions@.take(actions@.len() as int) =~= actions@);
        crate::laws::lemma_termination_shape(values@, 0);
    }
    actions
}


/// A pass carries the largest value of `s[0..=end]` up to `end`, moves
/// values only within `[0, end]`, and its log replays to its result.
pub proof fn lemma_bubble_pass(s: Seq<u32>, j: int, end: int, bound: u32)
    requires
        0 <= j <= end < s.len() <= usize::MAX,
        forall|x: int| 0 <= x < j ==> #[trigger] s[x] <= s[j],
        forall|x: int| 0 <= x <= end ==> #[trigger] s[x] <= bound,
    ensures
        ({
            let r = bubble_pass(s, j, end);
            &&& r.1.len() == s.len()
            &&& forall|k: int| end < k < s.len() ==> #[trigger] r.1[k] == s[k]
            &&& forall|x: int| 0 <= x <= end ==> #[trigger] r.1[x] <= r.1[end]
            &&& forall|x: int| 0 <= x <= end ==> #[trigger] r.1[x] <= bound
            &&& replay(s, r.0) == r.1
            &&& forall|k: int| 0 <= k < r.0.len() ==> conserving(#[trigger] r.0[k], s.len() as int)
        }),
    decreases end - j,
{
    let r = bubble_pass(s, j, end);
    if j < end {
        let c = compare_action(j, j + 1, 0, 0);
        let t = if s[j] > s[j + 1] {
            swapped(s, j)
        } else {
            s
        };
        let head = if s[j] > s[j + 1] {
            seq![c, swap_action(j, j + 1)]
        } else {
            seq![c]
        };
        if s[j] > s[j + 1] {
            lemma_replay_two(s, c, swap_action(j, j + 1));
        } else {
            lemma_replay_one(s, c);
        }
        assert(replay(s, head) == t);
        lemma_bubble_pass(t, j + 1, end, bound);
        let q = bubble_pass(t, j + 1, end);
        assert(r.0 == head + q.0);
        lemma_replay_concat(s, head, q.0);
        assert forall|k: int| 0 <= k < r.0.len() implies conserving(#[trigger] r.0[k], s.len() as int) by {
            if k >= head.len() {
                assert(r.0[k] == q.0[k - head.len()]);
            }
        }
    } else {
        assert(replay(s, r.0) == s);
    }
}

/// Before pass `i`: the last `i` places hold the largest values in order.
pub open spec fn settled_from(s: Seq<u32>, p: int) -> bool {
    &&& forall|x: int, y: int| p <= x <= y < s.len() ==> s[x] <= s[y]
    &&& forall|x: int, y: int| 0 <= x < p <= y < s.len() ==> s[x] <= s[y]
}

pub proof fn lemma_bubble_passes(s: Seq<u32>, i: int, n: int)
    requires
        0 <= i <= n,
        n == s.len() <= usize::MAX,
        settled_from(s, n - i),
    ensures
        ({
            let r = bubble_passes(s, i, n);
            &&& sorted(r.1)
            &&& r.1.len() == n
            &&& replay(s, r.0) == r.1
            &&& forall|k: int| 0 <= k < r.0.len() ==> conserving(#[trigger] r.0[k], n)
        }),
    decreases n - i,
{
    let r = bubble_passes(s, i, n);
    if i < n {
        let end = n - 1 - i;
        let bound: u32 = if i > 0 {
            s[n - i]
        } else {
            u32::MAX
        };
        lemma_bubble_pass(s, 0, end, bound);
        let p = bubble_pass(s, 0, end);
        assert(settled_from(p.1, end)) by {
            assert forall|x: int, y: int| end <= x <= y < n implies p.1[x] <= p.1[y] by {
                if x == end && y > end {
                    assert(p.1[y] == s[y]);
                    assert(s[n - i] <= s[y]);
                }
            }
            assert forall|x: int, y: int| 0 <= x < end <= y < n implies p.1[x] <= p.1[y] by {
                if y > end {
                    assert(p.1[y] == s[y]);
                    assert(s[n - i] <= s[y]);
                }
            }
        }
        lemma_bubble_passes(p.1, i + 1, n);
        let q = bubble_passes(p.1, i + 1, n);
        lemma_replay_concat(s, p.0, q.0);
        assert forall|k: int| 0 <= k < r.0.len() implies conserving(#[trigger] r.0[k], n) by {
            if k >= p.0.len() {
                assert(r.0[k] == q.0[k - p.0.len()]);
            } else {
                assert(r.0[k] == p.0[k]);
            }
        }
    } else {
        assert(replay(s, r.0) == s);
    }
}

/// Replaying the bubble sort log of `s` leaves `s` sorted, and every
/// prefix of the log keeps the multiset of values.
pub proof fn lemma_bubble_log(s: Seq<u32>)
    requires
        s.len() <= usize::MAX,
    ensures
        sorted(replay(s, bubble_log(s))),
        forall|k: int|
            0 <= k <= bubble_log(s).len() ==> #[trigger] replay(s, bubble_log(s).take(k)).to_multiset()
                == s.to_multiset(),
{
    let n = s.len() as int;
    lemma_bubble_passes(s, 0, n);
    let r = bubble_passes(s, 0, n);
    let log = bubble_log(s);
    assert(log.drop_last() =~= r.0);
    assert forall|k: int| 0 <= k < log.len() implies conserving(#[trigger] log[k], n) by {
        if k < r.0.len() {
            assert(log[k] == r.0[k]);
        }
    }
    assert forall|k: int| 0 <= k <= log.len() implies #[trigger] replay(s, log.take(k)).to_multiset()
        == s.to_multiset() by {
        let pre = log.take(k);
        assert forall|x: int| 0 <= x < pre.len() implies conserving(#[trigger] pre[x], n) by {
            assert(pre[x] == log[x]);
        }
        lemma_replay_conserves(s, pre);
    }
}


/// A bubble log names only bars of `s`.
pub proof fn lemma_bubble_within(s: Seq<u32>)
    requires
        s.len() <= usize::MAX,
    ensures
        log_within(bubble_log(s), 0, s.len() as int),
{
    let n = s.len() as int;
    lemma_bubble_passes_within(s, 0, n);
    let b = bubble_passes(s, 0, n).0;
    let d = seq![done_action()];
    assert(log_within(d, 0, n));
    lemma_log_within_concat(b, d, 0, n);
    assert(bubble_log(s) =~= b + d);
}

proof fn lemma_bubble_pass_within(s: Seq<u32>, j: int, end: int, n: int)
    requires
        0 <= j,
        end < n,
        n <= usize::MAX,
    ensures
        log_within(bubble_pass(s, j, end).0, 0, n),
    decreases end - j,
{
    if j < end {
        let c = compare_action(j, j + 1, 0, 0);
        if s[j] > s[j + 1] {
            let t = swapped(s, j);
            lemma_bubble_pass_within(t, j + 1, end, n);
            let head = seq![c, swap_action(j, j + 1)];
            assert(log_within(head, 0, n));
            lemma_log_within_concat(head, bubble_pass(t, j + 1, end).0, 0, n);
        } else {
            lemma_bubble_pass_within(s, j + 1, end, n);
            let head = seq![c];
            assert(log_within(head, 0, n));
            lemma_log_within_concat(head, bubble_pass(s, j + 1, end).0, 0, n);
        }
    }
}

proof fn lemma_bubble_passes_within(s: Seq<u32>, i: int, n: int)
    requires
        0 <= i,
        n <= usize::MAX,
    ensures
        log_within(bubble_passes(s, i, n).0, 0, n),
    decreases n - i,
{
    if i < n {
        let p = bubble_pass(s, 0, n - 1 - i);
        lemma_bubble_pass_within(s, 0, n - 1 - i, n);
        lemma_bubble_passes_within(p.1, i + 1, n);
        lemma_log_within_concat(p.0, bubble_passes(p.1, i + 1, n).0, 0, n);
    }
}

} // verus!
