//! The top-down merge sort generator, shared by the sequential log and the
//! parallel chunks and rounds: logs as spec functions, the code that emits
//! them, and what replaying them does.

use vstd::prelude::*;
use crate::action::{
    clear_action, compare_action, done_action, make_done, push_action, sorted, write_action, Action,
    ActionKind, ELEMENT_SIZE,
};
use crate::replay::{
    apply_values, inert, lemma_log_within_concat, lemma_log_within_widen, lemma_replay_concat,
    lemma_replay_inert, lemma_replay_len, lemma_runs_clean_concat, held_end, log_within,
    names_within, no_swap, replay, runs_clean, writes_within,
};

verus! {

/// The stable merge of two runs: on equal heads the left run goes first.
pub open spec fn merged(a: Seq<u32>, b: Seq<u32>) -> Seq<u32>
    decreases a.len() + b.len(),
{
    if a.len() == 0 {
        b
    } else if b.len() == 0 {
        a
    } else if a[0] <= b[0] {
        seq![a[0]] + merged(a.drop_first(), b)
    } else {
        seq![b[0]] + merged(a, b.drop_first())
    }
}

/// `s` with the values from index `lo` on replaced by `m`.
pub open spec fn splice(s: Seq<u32>, lo: int, m: Seq<u32>) -> Seq<u32> {
    s.subrange(0, lo) + m + s.subrange(lo + m.len(), s.len() as int)
}

/// The comparisons and scratch pushes of merging `a` (at `base`) with `b`
/// (right after it), from heads `i` and `j` on.
pub open spec fn push_log(
    a: Seq<u32>,
    b: Seq<u32>,
    i: int,
    j: int,
    base: int,
    mem: int,
    task: usize,
) -> Seq<Action>
    decreases a.len() - i + b.len() - j,
{
    if i < 0 || j < 0 || i > a.len() || j > b.len() {
        seq![]
    } else if i < a.len() && j < b.len() {
        let c = compare_action(base + i, base + a.len() + j, mem, task);
        if a[i] <= b[j] {
            seq![c, push_action(base + i, a[i], mem, i + j, task)] + push_log(
                a,
                b,
                i + 1,
                j,
                base,
                mem,
                task,
            )
        } else {
            seq![c, push_action(base + a.len() + j, b[j], mem, i + j, task)] + push_log(
                a,
                b,
                i,
                j + 1,
                base,
                mem,
                task,
            )
        }
    } else if i < a.len() {
        seq![push_action(base + i, a[i], mem, i + j, task)] + push_log(a, b, i + 1, j, base, mem, task)
    } else if j < b.len() {
        seq![push_action(base + a.len() + j, b[j], mem, i + j, task)] + push_log(
            a,
            b,
            i,
            j + 1,
            base,
            mem,
            task,
        )
    } else {
        seq![]
    }
}

/// One `Write` per scratch value, in FIFO order, to `base`, `base + 1`, ...
pub open spec fn write_log(m: Seq<u32>, base: int, mem: int, task: usize) -> Seq<Action> {
    Seq::new(m.len(), |k: int| write_action(base + k, m[k], mem, task))
}

/// The full log of one merge: compares and pushes, writes back, clear.
pub open spec fn merge_log(a: Seq<u32>, b: Seq<u32>, base: int, mem: int, task: usize) -> Seq<
    Action,
> {
    push_log(a, b, 0, 0, base, mem, task) + write_log(merged(a, b), base, mem, task) + seq![
        clear_action(mem, task),
    ]
}

/// Top-down merge sort of `s[lo..hi]`, reported at `off + index`, while the
/// task already holds `mem` scratch bytes: the log and the sorted shadow.
pub open spec fn msort(s: Seq<u32>, lo: int, hi: int, off: int, mem: int, task: usize) -> (Seq<
    Action,
>, Seq<u32>)
    decreases hi - lo,
{
    if hi - lo <= 1 {
        (seq![], s)
    } else {
        let mid = lo + (hi - lo) / 2;
        let l = msort(s, lo, mid, off, mem, task);
        let r = msort(l.1, mid, hi, off, mem, task);
        let a = r.1.subrange(lo, mid);
        let b = r.1.subrange(mid, hi);
        (
            l.0 + r.0 + merge_log(a, b, off + lo, mem + (hi - lo) * 4, task),
            splice(r.1, lo, merged(a, b)),
        )
    }
}

/// The sequential merge sort log of `s`, ended by one `Done`.
pub open spec fn merge_sort_log(s: Seq<u32>) -> Seq<Action> {
    msort(s, 0, s.len() as int, 0, 0, 0).0.push(done_action())
}

pub proof fn lemma_merged_len(a: Seq<u32>, b: Seq<u32>)
    ensures
        merged(a, b).len() == a.len() + b.len(),
    decreases a.len() + b.len(),
{
    if a.len() > 0 && b.len() > 0 {
        if a[0] <= b[0] {
            lemma_merged_len(a.drop_first(), b);
        } else {
            lemma_merged_len(a, b.drop_first());
        }
    }
}

pub proof fn lemma_msort_len(s: Seq<u32>, lo: int, hi: int, off: int, mem: int, task: usize)
    requires
        0 <= lo <= hi <= s.len(),
    ensures
        msort(s, lo, hi, off, mem, task).1.len() == s.len(),
    decreases hi - lo,
{
    if hi - lo > 1 {
        let mid = lo + (hi - lo) / 2;
        lemma_msort_len(s, lo, mid, off, mem, task);
        let l = msort(s, lo, mid, off, mem, task);
        lemma_msort_len(l.1, mid, hi, off, mem, task);
        let r = msort(l.1, mid, hi, off, mem, task);
        lemma_merged_len(r.1.subrange(lo, mid), r.1.subrange(mid, hi));
    }
}

/// Log of a sequential merge sort of `values`.
pub fn merge_sort_actions(values: &[u32]) -> (actions: Vec<Action>)
    requires
        values@.len() * ELEMENT_SIZE <= usize::MAX,
    ensures
        actions@ == merge_sort_log(values@),
        sorted(replay(values@, actions@)),
        replay(values@, actions@).to_multiset() == values@.to_multiset(),
        crate::action::ends_with_single_done(actions@),
{
    let mut actions: Vec<Action> = Vec::new();
    let mut arr: Vec<u32> = vstd::slice::slice_to_vec(values);
    let n = arr.len();
    let mut current_memory: usize = 0;
    merge_sort_recursive(&mut arr, 0, n, 0, &mut actions, &mut current_memory, 0);
    actions.push(make_done());
    proof {
        assert(actions@ =~= merge_sort_log(values@));
        crate::laws::lemma_replay_sorts(values@, 0);
        crate::laws::lemma_termination_shape(values@, 0);
    }
    actions
}

/// Sorts `arr[left..right]` top-down, logging at `offset + index`.
pub(crate) fn merge_sort_recursive(
    arr: &mut Vec<u32>,
    left: usize,
    right: usize,
    offset: usize,
    actions: &mut Vec<Action>,
    current_memory: &mut usize,
    thread_id: usize,
)
    requires
        left <= right <= old(arr).len(),
        offset + right <= usize::MAX,
        *old(current_memory) + (right - left) * ELEMENT_SIZE <= usize::MAX,
    ensures
        final(actions)@ == old(actions)@ + msort(
            old(arr)@,
            left as int,
            right as int,
            offset as int,
            *old(current_memory) as int,
            thread_id,
        ).0,
        final(arr)@ == msort(
            old(arr)@,
            left as int,
            right as int,
            offset as int,
            *old(current_memory) as int,
            thread_id,
        ).1,
        *final(current_memory) == *old(current_memory),
    decreases right - left,
{
    if right - left <= 1 {
        proof {
            assert(actions@ =~= actions@ + seq![]);
        }
        return ;
    }
    let mid = left + (right - left) / 2;
    proof {
        lemma_msort_len(arr@, left as int, mid as int, offset as int, *current_memory as int, thread_id);
    }
    merge_sort_recursive(arr, left, mid, offset, actions, current_memory, thread_id);
    proof {
        lemma_msort_len(arr@, mid as int, right as int, offset as int, *current_memory as int, thread_id);
    }
    merge_sort_recursive(arr, mid, right, offset, actions, current_memory, thread_id);
    merge(arr, left, mid, right, offset, actions, current_memory, thread_id);
    proof {
        let ghost m = *old(current_memory) as int;
        let l = msort(old(arr)@, left as int, mid as int, offset as int, m, thread_id);
        let r = msort(l.1, mid as int, right as int, offset as int, m, thread_id);
        assert(actions@ =~= old(actions)@ + msort(
            old(arr)@,
            left as int,
            right as int,
            offset as int,
            m,
            thread_id,
        ).0);
    }
}

/// Merges the sorted runs `arr[left..mid]` and `arr[mid..right]` through a
/// FIFO scratch buffer, logging at `offset + index`.
pub(crate) fn merge(
    arr: &mut Vec<u32>,
    left: usize,
    mid: usize,
    right: usize,
    offset: usize,
    actions: &mut Vec<Action>,
    current_memory: &mut usize,
    thread_id: usize,
)
    requires
        left <= mid <= right <= old(arr).len(),
        offset + right <= usize::MAX,
        *old(current_memory) + (right - left) * ELEMENT_SIZE <= usize::MAX,
    ensures
        ({
            let a = old(arr)@.subrange(left as int, mid as int);
            let b = old(arr)@.subrange(mid as int, right as int);
            &&& final(arr)@ == splice(old(arr)@, left as int, merged(a, b))
            &&& final(actions)@ == old(actions)@ + merge_log(
                a,
                b,
                offset + left,
                *old(current_memory) + (right - left) * 4,
                thread_id,
            )
        }),
        *final(current_memory) == *old(current_memory),
{
    let ghost a = arr@.subrange(left as int, mid as int);
    let ghost b = arr@.subrange(mid as int, right as int);
    let ghost a0 = actions@;
    let ghost arr0 = arr@;
    let temp_size = right - left;
    let temp_bytes = temp_size * ELEMENT_SIZE;
    *current_memory += temp_bytes;
    let memory = *current_memory;
    let ghost base = offset + left;
    let ghost pushes = push_log(a, b, 0, 0, base, memory as int, thread_id);
    let ghost all = merged(a, b);
    let mut temp: Vec<u32> = Vec::with_capacity(temp_size);
    let mut i = left;
    let mut j = mid;
    let mut temp_idx: usize = 0;
    proof {
        assert(a.skip(0) =~= a);
        assert(b.skip(0) =~= b);
        assert(temp@ + all =~= all);
        assert(actions@ + pushes =~= a0 + pushes);
    }
    while i < mid && j < right
        invariant
            left <= i <= mid <= j <= right <= arr.len(),
            arr@ == arr0,
            a == arr0.subrange(left as int, mid as int),
            b == arr0.subrange(mid as int, right as int),
            offset + right <= usize::MAX,
            base == offset + left,
            pushes == push_log(a, b, 0, 0, base, memory as int, thread_id),
            all == merged(a, b),
            temp_idx == (i - left) + (j - mid),
            temp@ + merged(a.skip(i - left), b.skip(j - mid)) == all,
            actions@ + push_log(a, b, i - left, j - mid, base, memory as int, thread_id) == a0
                + pushes,
        decreases (mid - i) + (right - j),
    {
        let ghost before = actions@;
        let ghost ii = i - left;
        let ghost jj = j - mid;
        actions.push(
            Action {
                kind: ActionKind::Compare,
                i: offset + i,
                j: offset + j,
                value: 0,
                memory,
                temp_idx: 0,
                thread_id,
            },
        );
        if arr[i] <= arr[j] {
            actions.push(
                Action {
                    kind: ActionKind::TempPush,
                    i: offset + i,
                    j: 0,
                    value: arr[i],
                    memory,
                    temp_idx,
                    thread_id,
                },
            );
            temp.push(arr[i]);
            proof {
                assert(a.skip(ii).drop_first() =~= a.skip(ii + 1));
                let c = compare_action(base + ii, base + a.len() + jj, memory as int, thread_id);
                let p = push_action(base + ii, a[ii], memory as int, ii + jj, thread_id);
                assert(a[ii] <= b[jj]);
                assert(push_log(a, b, ii, jj, base, memory as int, thread_id) == seq![c, p] + push_log(a, b, ii + 1, jj, base, memory as int, thread_id));
                assert(actions@ =~= before.push(c).push(p));
                assert(actions@ + push_log(a, b, ii + 1, jj, base, memory as int, thread_id)
                    =~= before + push_log(a, b, ii, jj, base, memory as int, thread_id));
            }
            temp_idx += 1;
            i += 1;
        } else {
            actions.push(
                Action {
                    kind: ActionKind::TempPush,
                    i: offset + j,
                    j: 0,
                    value: arr[j],
                    memory,
                    temp_idx,
                    thread_id,
                },
            );
            temp.push(arr[j]);
            proof {
                assert(b.skip(jj).drop_first() =~= b.skip(jj + 1));
                assert(actions@ + push_log(a, b, ii, jj + 1, base, memory as int, thread_id)
                    =~= before + push_log(a, b, ii, jj, base, memory as int, thread_id));
            }
            temp_idx += 1;
            j += 1;
        }
        proof {
            assert(temp@ + merged(a.skip(i - left), b.skip(j - mid)) =~= all);
        }
    }
    while i < mid
        invariant
            left <= i <= mid <= j <= right <= arr.len(),
            i < mid ==> j == right,
            arr@ == arr0,
            a == arr0.subrange(left as int, mid as int),
            b == arr0.subrange(mid as int, right as int),
            offset + right <= usize::MAX,
            base == offset + left,
            pushes == push_log(a, b, 0, 0, base, memory as int, thread_id),
            all == merged(a, b),
            temp_idx == (i - left) + (j - mid),
            temp@ + merged(a.skip(i - left), b.skip(j - mid)) == all,
            actions@ + push_log(a, b, i - left, j - mid, base, memory as int, thread_id) == a0
                + pushes,
        decreases mid - i,
    {
        let ghost before = actions@;
        let ghost ii = i - left;
        let ghost jj = j - mid;
        actions.push(
            Action {
                kind: ActionKind::TempPush,
                i: offset + i,
                j: 0,
                value: arr[i],
                memory,
                temp_idx,
                thread_id,
            },
        );
        temp.push(arr[i]);
        proof {
            assert(a.skip(ii).drop_first() =~= a.skip(ii + 1));
            assert(actions@ + push_log(a, b, ii + 1, jj, base, memory as int, thread_id)
                =~= before + push_log(a, b, ii, jj, base, memory as int, thread_id));
            assert(temp@ + merged(a.skip(ii + 1), b.skip(jj)) =~= all);
        }
        temp_idx += 1;
        i += 1;
    }
    while j < right
        invariant
            left <= i <= mid <= j <= right <= arr.len(),
            i == mid,
            arr@ == arr0,
            a == arr0.subrange(left as int, mid as int),
            b == arr0.subrange(mid as int, right as int),
            offset + right <= usize::MAX,
            base == offset + left,
            pushes == push_log(a, b, 0, 0, base, memory as int, thread_id),
            all == merged(a, b),
            temp_idx == (i - left) + (j - mid),
            temp@ + merged(a.skip(i - left), b.skip(j - mid)) == all,
            actions@ + push_log(a, b, i - left, j - mid, base, memory as int, thread_id) == a0
                + pushes,
        decreases right - j,
    {
        let ghost before = actions@;
        let ghost ii = i - left;
        let ghost jj = j - mid;
        actions.push(
            Action {
                kind: ActionKind::TempPush,
                i: offset + j,
                j: 0,
                value: arr[j],
                memory,
                temp_idx,
                thread_id,
            },
        );
        temp.push(arr[j]);
        proof {
            assert(b.skip(jj).drop_first() =~= b.skip(jj + 1));
            assert(actions@ + push_log(a, b, ii, jj + 1, base, memory as int, thread_id)
                =~= before + push_log(a, b, ii, jj, base, memory as int, thread_id));
            assert(temp@ + merged(a.skip(ii), b.skip(jj + 1)) =~= all);
        }
        temp_idx += 1;
        j += 1;
    }
    proof {
        assert(a.skip(i - left).len() == 0);
        assert(b.skip(j - mid).len() == 0);
        assert(temp@ =~= all);
        assert(actions@ =~= a0 + pushes);
        lemma_merged_len(a, b);
    }
    let ghost a1 = actions@;
    let ghost writes = write_log(all, base, memory as int, thread_id);
    let mut k: usize = 0;
    while k < temp.len()
        invariant
            temp@ == all,
            base == offset + left,
            writes == write_log(all, base, memory as int, thread_id),
            temp.len() == right - left,
            left <= right <= arr.len(),
            arr.len() == arr0.len(),
            offset + right <= usize::MAX,
            forall|x: int| 0 <= x < left ==> arr@[x] == arr0[x],
            forall|x: int| left + k <= x < arr.len() ==> arr@[x] == arr0[x],
            forall|x: int| left <= x < left + k ==> arr@[x] == all[x - left],
            k <= temp.len(),
            actions@ == a1 + writes.take(k as int),
        decreases temp.len() - k,
    {
        let val = temp[k];
        let target_idx = left + k;
        arr[target_idx] = val;
        actions.push(
            Action {
                kind: ActionKind::Write,
                i: offset + target_idx,
                j: 0,
                value: val,
                memory,
                temp_idx: 0,
                thread_id,
            },
        );
        proof {
            assert(writes.take(k + 1) =~= writes.take(k as int).push(writes[k as int]));
        }
        k += 1;
    }
    actions.push(
        Action {
            kind: ActionKind::TempClear,
            i: 0,
            j: 0,
            value: 0,
            memory,
            temp_idx: 0,
            thread_id,
        },
    );
    *current_memory -= temp_bytes;
    proof {
        assert(writes.take(k as int) =~= writes);
        assert(actions@ =~= a0 + merge_log(a, b, base, memory as int, thread_id));
        assert(arr@ =~= splice(arr0, left as int, all));
    }
}


pub proof fn lemma_push_log_inert(
    a: Seq<u32>,
    b: Seq<u32>,
    i: int,
    j: int,
    base: int,
    mem: int,
    task: usize,
)
    ensures
        forall|k: int|
            0 <= k < push_log(a, b, i, j, base, mem, task).len() ==> inert(
                #[trigger] push_log(a, b, i, j, base, mem, task)[k],
            ),
    decreases a.len() - i + b.len() - j,
{
    let l = push_log(a, b, i, j, base, mem, task);
    if i < 0 || j < 0 || i > a.len() || j > b.len() {
    } else if i < a.len() && j < b.len() {
        let (ni, nj) = if a[i] <= b[j] { (i + 1, j) } else { (i, j + 1) };
        lemma_push_log_inert(a, b, ni, nj, base, mem, task);
        let r = push_log(a, b, ni, nj, base, mem, task);
        assert forall|k: int| 0 <= k < l.len() implies inert(#[trigger] l[k]) by {
            if k >= 2 {
                assert(l[k] == r[k - 2]);
            }
        }
    } else if i < a.len() || j < b.len() {
        let (ni, nj) = if i < a.len() { (i + 1, j) } else { (i, j + 1) };
        lemma_push_log_inert(a, b, ni, nj, base, mem, task);
        let r = push_log(a, b, ni, nj, base, mem, task);
        assert forall|k: int| 0 <= k < l.len() implies inert(#[trigger] l[k]) by {
            if k >= 1 {
                assert(l[k] == r[k - 1]);
            }
        }
    }
}

pub proof fn lemma_write_log_replay(h: Seq<u32>, m: Seq<u32>, base: int, mem: int, task: usize)
    requires
        0 <= base,
        base + m.len() <= h.len(),
        base + m.len() <= usize::MAX,
    ensures
        replay(h, write_log(m, base, mem, task)) == splice(h, base, m),
    decreases m.len(),
{
    if m.len() == 0 {
        assert(splice(h, base, m) =~= h);
    } else {
        let w = write_log(m, base, mem, task);
        assert(w.drop_last() =~= write_log(m.drop_last(), base, mem, task));
        lemma_write_log_replay(h, m.drop_last(), base, mem, task);
        assert(splice(h, base, m.drop_last()).update(base + m.len() - 1, m.last()) =~= splice(h, base, m));
    }
}

/// Replaying a merge writes the merged runs over their place.
pub proof fn lemma_merge_log_replay(h: Seq<u32>, a: Seq<u32>, b: Seq<u32>, base: int, mem: int, task: usize)
    requires
        0 <= base,
        base + a.len() + b.len() <= h.len(),
        base + a.len() + b.len() <= usize::MAX,
    ensures
        replay(h, merge_log(a, b, base, mem, task)) == splice(h, base, merged(a, b)),
{
    let p = push_log(a, b, 0, 0, base, mem, task);
    let m = merged(a, b);
    let w = write_log(m, base, mem, task);
    let c = seq![clear_action(mem, task)];
    lemma_merged_len(a, b);
    lemma_push_log_inert(a, b, 0, 0, base, mem, task);
    lemma_replay_inert(h, p);
    lemma_replay_concat(h, p, w);
    lemma_write_log_replay(h, m, base, mem, task);
    lemma_replay_concat(h, p + w, c);
    assert(inert(c[0]));
    lemma_replay_inert(splice(h, base, m), c);
}

/// Every value of `merged(a, b)` is at least `low` when those of `a` and `b` are.
pub proof fn lemma_merged_lower(a: Seq<u32>, b: Seq<u32>, low: u32)
    requires
        forall|k: int| 0 <= k < a.len() ==> low <= #[trigger] a[k],
        forall|k: int| 0 <= k < b.len() ==> low <= #[trigger] b[k],
    ensures
        forall|k: int| 0 <= k < merged(a, b).len() ==> low <= #[trigger] merged(a, b)[k],
    decreases a.len() + b.len(),
{
    if a.len() > 0 && b.len() > 0 {
        let m = merged(a, b);
        if a[0] <= b[0] {
            let t = a.drop_first();
            lemma_merged_lower(t, b, low);
            assert forall|k: int| 0 <= k < m.len() implies low <= #[trigger] m[k] by {
                if k > 0 {
                    assert(m[k] == merged(t, b)[k - 1]);
                }
            }
        } else {
            let t = b.drop_first();
            lemma_merged_lower(a, t, low);
            assert forall|k: int| 0 <= k < m.len() implies low <= #[trigger] m[k] by {
                if k > 0 {
                    assert(m[k] == merged(a, t)[k - 1]);
                }
            }
        }
    }
}

/// Merging two sorted runs gives a sorted run.
pub proof fn lemma_merged_sorted(a: Seq<u32>, b: Seq<u32>)
    requires
        sorted(a),
        sorted(b),
    ensures
        sorted(merged(a, b)),
    decreases a.len() + b.len(),
{
    if a.len() > 0 && b.len() > 0 {
        if a[0] <= b[0] {
            let t = a.drop_first();
            lemma_merged_sorted(t, b);
            lemma_merged_lower(t, b, a[0]);
            let m = merged(a, b);
            assert(m == seq![a[0]] + merged(t, b));
            assert forall|x: int, y: int| 0 <= x <= y < m.len() implies m[x] <= m[y] by {
                if x > 0 {
                    assert(m[x] == merged(t, b)[x - 1]);
                    assert(m[y] == merged(t, b)[y - 1]);
                } else if y > 0 {
                    assert(m[y] == merged(t, b)[y - 1]);
                }
            }
        } else {
            let t = b.drop_first();
            lemma_merged_sorted(a, t);
            lemma_merged_lower(a, t, b[0]);
            let m = merged(a, b);
            assert(m == seq![b[0]] + merged(a, t));
            assert forall|x: int, y: int| 0 <= x <= y < m.len() implies m[x] <= m[y] by {
                if x > 0 {
                    assert(m[x] == merged(a, t)[x - 1]);
                    assert(m[y] == merged(a, t)[y - 1]);
                } else if y > 0 {
                    assert(m[y] == merged(a, t)[y - 1]);
                }
            }
        }
    }
}

/// What a merge sort of `s[lo..hi]` leaves and what replaying its log does:
/// the range comes out sorted, the rest of `s` stays, and replaying the log
/// on any `h` that holds `s[lo..hi]` at `off + lo` puts the sorted range
/// there and leaves the rest of `h` alone.
pub proof fn lemma_msort(s: Seq<u32>, lo: int, hi: int, off: int, mem: int, task: usize, h: Seq<u32>)
    requires
        0 <= lo <= hi <= s.len(),
        0 <= off,
        off + hi <= h.len(),
        off + hi <= usize::MAX,
        forall|x: int| lo <= x < hi ==> h[off + x] == #[trigger] s[x],
    ensures
        ({
            let r = msort(s, lo, hi, off, mem, task);
            &&& r.1.len() == s.len()
            &&& forall|x: int| 0 <= x < s.len() && !(lo <= x < hi) ==> #[trigger] r.1[x] == s[x]
            &&& sorted(r.1.subrange(lo, hi))
            &&& replay(h, r.0).len() == h.len()
            &&& forall|y: int|
                0 <= y < h.len() ==> #[trigger] replay(h, r.0)[y] == if off + lo <= y < off + hi {
                    r.1[y - off]
                } else {
                    h[y]
                }
        }),
    decreases hi - lo,
{
    let r = msort(s, lo, hi, off, mem, task);
    if hi - lo <= 1 {
        assert(replay(h, r.0) == h);
    } else {
        let mid = lo + (hi - lo) / 2;
        let l = msort(s, lo, mid, off, mem, task);
        lemma_msort(s, lo, mid, off, mem, task, h);
        let h1 = replay(h, l.0);
        assert forall|x: int| mid <= x < hi implies h1[off + x] == #[trigger] l.1[x] by {
            assert(h1[off + x] == h[off + x]);
        }
        let q = msort(l.1, mid, hi, off, mem, task);
        lemma_msort(l.1, mid, hi, off, mem, task, h1);
        let h2 = replay(h1, q.0);
        let a = q.1.subrange(lo, mid);
        let b = q.1.subrange(mid, hi);
        let ml = merge_log(a, b, off + lo, mem + (hi - lo) * 4, task);
        lemma_merged_len(a, b);
        lemma_merge_log_replay(h2, a, b, off + lo, mem + (hi - lo) * 4, task);
        lemma_replay_concat(h, l.0, q.0);
        lemma_replay_concat(h, l.0 + q.0, ml);
        assert(r.0 == l.0 + q.0 + ml);
        assert(a =~= l.1.subrange(lo, mid));
        lemma_merged_sorted(a, b);
        assert(r.1.subrange(lo, hi) =~= merged(a, b));
        let fin = replay(h, r.0);
        assert forall|y: int| 0 <= y < h.len() implies #[trigger] fin[y] == if off + lo <= y < off + hi {
            r.1[y - off]
        } else {
            h[y]
        } by {
            if off + lo <= y < off + hi {
                assert(fin[y] == merged(a, b)[y - off - lo]);
            }
        }
    }
}

/// Replaying the sequential merge sort log of `s` leaves `s` sorted.
pub proof fn lemma_merge_sort_replay_sorted(s: Seq<u32>)
    requires
        s.len() <= usize::MAX,
    ensures
        sorted(replay(s, merge_sort_log(s))),
{
    let n = s.len() as int;
    let r = msort(s, 0, n, 0, 0, 0);
    lemma_msort(s, 0, n, 0, 0, 0, s);
    let fin = replay(s, r.0);
    assert(merge_sort_log(s) == r.0.push(done_action()));
    assert(merge_sort_log(s).drop_last() =~= r.0);
    assert(fin =~= r.1.subrange(0, n));
}


/// A merge log swaps nothing and writes only over its runs.
pub proof fn lemma_merge_log_writes(a: Seq<u32>, b: Seq<u32>, base: int, mem: int, task: usize)
    requires
        0 <= base,
        base + a.len() + b.len() <= usize::MAX,
    ensures
        no_swap(merge_log(a, b, base, mem, task)),
        writes_within(merge_log(a, b, base, mem, task), base, base + a.len() + b.len()),
{
    let p = push_log(a, b, 0, 0, base, mem, task);
    let m = merged(a, b);
    let w = write_log(m, base, mem, task);
    let l = merge_log(a, b, base, mem, task);
    lemma_merged_len(a, b);
    lemma_push_log_inert(a, b, 0, 0, base, mem, task);
    assert forall|k: int| 0 <= k < l.len() implies (#[trigger] l[k]).kind != ActionKind::Swap && (
    l[k].kind == ActionKind::Write ==> base <= l[k].i < base + a.len() + b.len()) by {
        if k < p.len() {
            assert(l[k] == p[k]);
            assert(inert(p[k]));
        } else if k < p.len() + w.len() {
            assert(l[k] == w[k - p.len()]);
        }
    }
}

/// A merge sort log swaps nothing and writes only over its range.
pub proof fn lemma_msort_writes(s: Seq<u32>, lo: int, hi: int, off: int, mem: int, task: usize)
    requires
        0 <= lo <= hi <= s.len(),
        0 <= off,
        off + hi <= usize::MAX,
    ensures
        no_swap(msort(s, lo, hi, off, mem, task).0),
        writes_within(msort(s, lo, hi, off, mem, task).0, off + lo, off + hi),
    decreases hi - lo,
{
    if hi - lo > 1 {
        let mid = lo + (hi - lo) / 2;
        let l = msort(s, lo, mid, off, mem, task);
        lemma_msort_len(s, lo, mid, off, mem, task);
        lemma_msort_writes(s, lo, mid, off, mem, task);
        let q = msort(l.1, mid, hi, off, mem, task);
        lemma_msort_writes(l.1, mid, hi, off, mem, task);
        lemma_msort_len(l.1, mid, hi, off, mem, task);
        let a = q.1.subrange(lo, mid);
        let b = q.1.subrange(mid, hi);
        let ml = merge_log(a, b, off + lo, mem + (hi - lo) * 4, task);
        lemma_merge_log_writes(a, b, off + lo, mem + (hi - lo) * 4, task);
        let all = msort(s, lo, hi, off, mem, task).0;
        assert(all == l.0 + q.0 + ml);
        assert forall|k: int| 0 <= k < all.len() implies (#[trigger] all[k]).kind
            != ActionKind::Swap && (all[k].kind == ActionKind::Write ==> off + lo <= all[k].i < off
            + hi) by {
            if k < l.0.len() {
                assert(all[k] == l.0[k]);
            } else if k < l.0.len() + q.0.len() {
                assert(all[k] == q.0[k - l.0.len()]);
            } else {
                assert(all[k] == ml[k - l.0.len() - q.0.len()]);
            }
        }
    }
}


/// Merging keeps every value of both runs.
pub proof fn lemma_merged_multiset(a: Seq<u32>, b: Seq<u32>)
    ensures
        merged(a, b).to_multiset() == a.to_multiset().add(b.to_multiset()),
    decreases a.len() + b.len(),
{
    broadcast use vstd::seq_lib::lemma_multiset_commutative;
    broadcast use vstd::multiset::group_multiset_axioms;

    if a.len() == 0 {
        a.to_multiset_ensures();
        vstd::multiset::lemma_multiset_empty_len(a.to_multiset());
        assert(merged(a, b).to_multiset() =~= a.to_multiset().add(b.to_multiset()));
    } else if b.len() == 0 {
        b.to_multiset_ensures();
        vstd::multiset::lemma_multiset_empty_len(b.to_multiset());
        assert(merged(a, b).to_multiset() =~= a.to_multiset().add(b.to_multiset()));
    } else if a[0] <= b[0] {
        let t = a.drop_first();
        lemma_merged_multiset(t, b);
        assert(a =~= seq![a[0]] + t);
        assert(merged(a, b).to_multiset() =~= a.to_multiset().add(b.to_multiset()));
    } else {
        let t = b.drop_first();
        lemma_merged_multiset(a, t);
        assert(b =~= seq![b[0]] + t);
        assert(merged(a, b).to_multiset() =~= a.to_multiset().add(b.to_multiset()));
    }
}

/// Replacing a range by a rearrangement of it keeps the multiset.
pub proof fn lemma_splice_multiset(s: Seq<u32>, lo: int, m: Seq<u32>)
    requires
        0 <= lo,
        lo + m.len() <= s.len(),
        m.to_multiset() == s.subrange(lo, lo + m.len()).to_multiset(),
    ensures
        splice(s, lo, m).to_multiset() == s.to_multiset(),
        splice(s, lo, m).len() == s.len(),
{
    broadcast use vstd::seq_lib::lemma_multiset_commutative;

    let hi = lo + m.len();
    let x = s.subrange(0, lo);
    let y = s.subrange(lo, hi);
    let z = s.subrange(hi, s.len() as int);
    assert(s =~= x + y + z);
    assert((x + y + z).to_multiset() == (x + y).to_multiset().add(z.to_multiset()));
    assert((x + m + z).to_multiset() == (x + m).to_multiset().add(z.to_multiset()));
}

/// A merge sort rearranges the values of `s` and nothing more.
pub proof fn lemma_msort_multiset(s: Seq<u32>, lo: int, hi: int, off: int, mem: int, task: usize)
    requires
        0 <= lo <= hi <= s.len(),
    ensures
        msort(s, lo, hi, off, mem, task).1.to_multiset() == s.to_multiset(),
    decreases hi - lo,
{
    broadcast use vstd::seq_lib::lemma_multiset_commutative;

    if hi - lo > 1 {
        let mid = lo + (hi - lo) / 2;
        let l = msort(s, lo, mid, off, mem, task);
        lemma_msort_multiset(s, lo, mid, off, mem, task);
        lemma_msort_len(s, lo, mid, off, mem, task);
        let r = msort(l.1, mid, hi, off, mem, task);
        lemma_msort_multiset(l.1, mid, hi, off, mem, task);
        lemma_msort_len(l.1, mid, hi, off, mem, task);
        let a = r.1.subrange(lo, mid);
        let b = r.1.subrange(mid, hi);
        lemma_merged_multiset(a, b);
        lemma_merged_len(a, b);
        assert(r.1.subrange(lo, hi) =~= a + b);
        lemma_splice_multiset(r.1, lo, merged(a, b));
    }
}

/// Replaying the sequential merge sort log of `s` rearranges `s`.
pub proof fn lemma_merge_sort_replay_permutes(s: Seq<u32>)
    requires
        s.len() <= usize::MAX,
    ensures
        replay(s, merge_sort_log(s)).to_multiset() == s.to_multiset(),
{
    let n = s.len() as int;
    let r = msort(s, 0, n, 0, 0, 0);
    lemma_msort(s, 0, n, 0, 0, 0, s);
    lemma_msort_multiset(s, 0, n, 0, 0, 0);
    let fin = replay(s, r.0);
    assert(merge_sort_log(s).drop_last() =~= r.0);
    assert(fin =~= r.1);
}


pub proof fn lemma_push_log_within(
    a: Seq<u32>,
    b: Seq<u32>,
    i: int,
    j: int,
    base: int,
    mem: int,
    task: usize,
)
    requires
        0 <= base,
        base + a.len() + b.len() <= usize::MAX,
    ensures
        log_within(push_log(a, b, i, j, base, mem, task), base, base + a.len() + b.len()),
    decreases a.len() - i + b.len() - j,
{
    let hi = base + a.len() + b.len();
    let l = push_log(a, b, i, j, base, mem, task);
    if i < 0 || j < 0 || i > a.len() || j > b.len() {
    } else if i < a.len() && j < b.len() {
        let (ni, nj) = if a[i] <= b[j] { (i + 1, j) } else { (i, j + 1) };
        lemma_push_log_within(a, b, ni, nj, base, mem, task);
        let r = push_log(a, b, ni, nj, base, mem, task);
        assert forall|k: int| 0 <= k < l.len() implies names_within(#[trigger] l[k], base, hi) by {
            if k >= 2 {
                assert(l[k] == r[k - 2]);
            }
        }
    } else if i < a.len() || j < b.len() {
        let (ni, nj) = if i < a.len() { (i + 1, j) } else { (i, j + 1) };
        lemma_push_log_within(a, b, ni, nj, base, mem, task);
        let r = push_log(a, b, ni, nj, base, mem, task);
        assert forall|k: int| 0 <= k < l.len() implies names_within(#[trigger] l[k], base, hi) by {
            if k >= 1 {
                assert(l[k] == r[k - 1]);
            }
        }
    }
}

/// A merge log names only bars of its two runs.
pub proof fn lemma_merge_log_within(a: Seq<u32>, b: Seq<u32>, base: int, mem: int, task: usize)
    requires
        0 <= base,
        base + a.len() + b.len() <= usize::MAX,
    ensures
        log_within(merge_log(a, b, base, mem, task), base, base + a.len() + b.len()),
{
    let hi = base + a.len() + b.len();
    lemma_merged_len(a, b);
    lemma_push_log_within(a, b, 0, 0, base, mem, task);
    let w = write_log(merged(a, b), base, mem, task);
    assert(log_within(w, base, hi));
    let c = seq![clear_action(mem, task)];
    assert(log_within(c, base, hi));
    lemma_log_within_concat(push_log(a, b, 0, 0, base, mem, task), w, base, hi);
    lemma_log_within_concat(push_log(a, b, 0, 0, base, mem, task) + w, c, base, hi);
}

/// A merge sort log names only bars of its range.
pub proof fn lemma_msort_within(s: Seq<u32>, lo: int, hi: int, off: int, mem: int, task: usize)
    requires
        0 <= lo <= hi <= s.len(),
        0 <= off,
        off + hi <= usize::MAX,
    ensures
        log_within(msort(s, lo, hi, off, mem, task).0, off + lo, off + hi),
    decreases hi - lo,
{
    if hi - lo > 1 {
        let mid = lo + (hi - lo) / 2;
        let l = msort(s, lo, mid, off, mem, task);
        lemma_msort_len(s, lo, mid, off, mem, task);
        lemma_msort_within(s, lo, mid, off, mem, task);
        let q = msort(l.1, mid, hi, off, mem, task);
        lemma_msort_within(l.1, mid, hi, off, mem, task);
        let a = q.1.subrange(lo, mid);
        let b = q.1.subrange(mid, hi);
        lemma_msort_len(l.1, mid, hi, off, mem, task);
        lemma_merge_log_within(a, b, off + lo, mem + (hi - lo) * 4, task);
        lemma_log_within_widen(l.0, off + lo, off + mid, off + lo, off + hi);
        lemma_log_within_widen(q.0, off + mid, off + hi, off + lo, off + hi);
        lemma_log_within_concat(l.0, q.0, off + lo, off + hi);
        lemma_log_within_concat(
            l.0 + q.0,
            merge_log(a, b, off + lo, mem + (hi - lo) * 4, task),
            off + lo,
            off + hi,
        );
    }
}


proof fn lemma_push_log_clean(
    a: Seq<u32>,
    b: Seq<u32>,
    i: int,
    j: int,
    base: int,
    mem: int,
    task: usize,
    held: int,
    n: int,
)
    requires
        0 <= i <= a.len(),
        0 <= j <= b.len(),
        held + (a.len() - i) + (b.len() - j) <= n,
    ensures
        runs_clean(held, push_log(a, b, i, j, base, mem, task), n),
        held_end(held, push_log(a, b, i, j, base, mem, task)) == held + (a.len() - i) + (b.len()
            - j),
    decreases a.len() - i + b.len() - j,
{
    let l = push_log(a, b, i, j, base, mem, task);
    if i < a.len() && j < b.len() {
        let (ni, nj) = if a[i] <= b[j] { (i + 1, j) } else { (i, j + 1) };
        lemma_push_log_clean(a, b, ni, nj, base, mem, task, held + 1, n);
        let r = push_log(a, b, ni, nj, base, mem, task);
        let l1 = l.drop_first();
        assert(l1.drop_first() =~= r);
        assert(l1[0] == l[1]);
        assert(l[1].kind == ActionKind::TempPush);
        assert(l[0].kind == ActionKind::Compare);
        assert(runs_clean(held, l1, n));
        assert(held_end(held, l1) == held_end(held + 1, r));
        assert(runs_clean(held, l, n));
        assert(held_end(held, l) == held_end(held, l1));
    } else if i < a.len() || j < b.len() {
        let (ni, nj) = if i < a.len() { (i + 1, j) } else { (i, j + 1) };
        lemma_push_log_clean(a, b, ni, nj, base, mem, task, held + 1, n);
        let r = push_log(a, b, ni, nj, base, mem, task);
        assert(l.drop_first() =~= r);
        assert(l[0].kind == ActionKind::TempPush);
        assert(runs_clean(held, l, n));
    } else {
        assert(l.len() == 0);
    }
}

proof fn lemma_write_log_clean(m: Seq<u32>, base: int, mem: int, task: usize, held: int, n: int, k: int)
    requires
        0 <= k <= m.len(),
        held >= m.len() - k,
    ensures
        runs_clean(held, write_log(m, base, mem, task).skip(k), n),
        held_end(held, write_log(m, base, mem, task).skip(k)) == held - (m.len() - k),
    decreases m.len() - k,
{
    let w = write_log(m, base, mem, task);
    if k < m.len() {
        lemma_write_log_clean(m, base, mem, task, held - 1, n, k + 1);
        assert(w.skip(k).drop_first() =~= w.skip(k + 1));
        assert(w.skip(k)[0] == w[k]);
    } else {
        assert(w.skip(k).len() == 0);
    }
}

/// A merge of runs that fit among `n` bars admits every action through one
/// scratch region that starts and ends empty.
pub proof fn lemma_merge_log_clean(a: Seq<u32>, b: Seq<u32>, base: int, mem: int, task: usize, n: int)
    requires
        a.len() + b.len() <= n,
    ensures
        runs_clean(0, merge_log(a, b, base, mem, task), n),
        held_end(0, merge_log(a, b, base, mem, task)) == 0,
{
    let p = push_log(a, b, 0, 0, base, mem, task);
    let m = merged(a, b);
    let w = write_log(m, base, mem, task);
    let c = seq![clear_action(mem, task)];
    lemma_merged_len(a, b);
    lemma_push_log_clean(a, b, 0, 0, base, mem, task, 0, n);
    lemma_write_log_clean(m, base, mem, task, (a.len() + b.len()) as int, n, 0);
    assert(w.skip(0) =~= w);
    lemma_runs_clean_concat(0, p, w, n);
    assert(held_end(0, p + w) == 0);
    assert(c.drop_first() =~= Seq::<Action>::empty());
    assert(runs_clean(0, c.drop_first(), n));
    assert(runs_clean(0, c, n));
    assert(held_end(0, c.drop_first()) == 0);
    assert(held_end(0, c) == 0);
    lemma_runs_clean_concat(0, p + w, c, n);
    assert(merge_log(a, b, base, mem, task) == p + w + c);
}

/// A merge sort over at most `n` values runs clean through one scratch
/// region that starts and ends empty.
pub proof fn lemma_msort_clean(s: Seq<u32>, lo: int, hi: int, off: int, mem: int, task: usize, n: int)
    requires
        0 <= lo <= hi <= s.len(),
        hi - lo <= n,
    ensures
        runs_clean(0, msort(s, lo, hi, off, mem, task).0, n),
        held_end(0, msort(s, lo, hi, off, mem, task).0) == 0,
    decreases hi - lo,
{
    if hi - lo > 1 {
        let mid = lo + (hi - lo) / 2;
        let l = msort(s, lo, mid, off, mem, task);
        lemma_msort_len(s, lo, mid, off, mem, task);
        lemma_msort_clean(s, lo, mid, off, mem, task, n);
        let q = msort(l.1, mid, hi, off, mem, task);
        lemma_msort_clean(l.1, mid, hi, off, mem, task, n);
        lemma_msort_len(l.1, mid, hi, off, mem, task);
        let a = q.1.subrange(lo, mid);
        let b = q.1.subrange(mid, hi);
        lemma_merge_log_clean(a, b, off + lo, mem + (hi - lo) * 4, task, n);
        lemma_runs_clean_concat(0, l.0, q.0, n);
        lemma_runs_clean_concat(0, l.0 + q.0, merge_log(a, b, off + lo, mem + (hi - lo) * 4, task), n);
    }
}

/// The sequential merge sort log runs clean through one scratch region.
pub proof fn lemma_merge_sort_log_clean(s: Seq<u32>)
    ensures
        runs_clean(0, merge_sort_log(s), s.len() as int),
{
    let n = s.len() as int;
    lemma_msort_clean(s, 0, n, 0, 0, 0, n);
    let d = seq![done_action()];
    assert(d.drop_first() =~= Seq::<Action>::empty());
    assert(runs_clean(0, d.drop_first(), n));
    assert(runs_clean(0, d, n));
    lemma_runs_clean_concat(0, msort(s, 0, n, 0, 0, 0).0, d, n);
    assert(merge_sort_log(s) =~= msort(s, 0, n, 0, 0, 0).0 + d);
}


/// Every action of the log belongs to `task` and none is a `Done`.
pub open spec fn tagged(log: Seq<Action>, task: usize) -> bool {
    forall|k: int|
        0 <= k < log.len() ==> (#[trigger] log[k]).thread_id == task && log[k].kind
            != ActionKind::Done
}

proof fn lemma_tagged_concat(a: Seq<Action>, b: Seq<Action>, task: usize)
    requires
        tagged(a, task),
        tagged(b, task),
    ensures
        tagged(a + b, task),
{
    assert forall|k: int| 0 <= k < (a + b).len() implies (#[trigger] (a + b)[k]).thread_id == task
        && (a + b)[k].kind != ActionKind::Done by {
        if k >= a.len() {
            assert((a + b)[k] == b[k - a.len()]);
        } else {
            assert((a + b)[k] == a[k]);
        }
    }
}

proof fn lemma_push_log_tagged(
    a: Seq<u32>,
    b: Seq<u32>,
    i: int,
    j: int,
    base: int,
    mem: int,
    task: usize,
)
    ensures
        tagged(push_log(a, b, i, j, base, mem, task), task),
    decreases a.len() - i + b.len() - j,
{
    let l = push_log(a, b, i, j, base, mem, task);
    if i < 0 || j < 0 || i > a.len() || j > b.len() {
    } else if i < a.len() && j < b.len() {
        let (ni, nj) = if a[i] <= b[j] { (i + 1, j) } else { (i, j + 1) };
        lemma_push_log_tagged(a, b, ni, nj, base, mem, task);
        let r = push_log(a, b, ni, nj, base, mem, task);
        assert forall|k: int| 0 <= k < l.len() implies (#[trigger] l[k]).thread_id == task
            && l[k].kind != ActionKind::Done by {
            if k >= 2 {
                assert(l[k] == r[k - 2]);
            }
        }
    } else if i < a.len() || j < b.len() {
        let (ni, nj) = if i < a.len() { (i + 1, j) } else { (i, j + 1) };
        lemma_push_log_tagged(a, b, ni, nj, base, mem, task);
        let r = push_log(a, b, ni, nj, base, mem, task);
        assert forall|k: int| 0 <= k < l.len() implies (#[trigger] l[k]).thread_id == task
            && l[k].kind != ActionKind::Done by {
            if k >= 1 {
                assert(l[k] == r[k - 1]);
            }
        }
    }
}

pub proof fn lemma_merge_log_tagged(a: Seq<u32>, b: Seq<u32>, base: int, mem: int, task: usize)
    ensures
        tagged(merge_log(a, b, base, mem, task), task),
{
    lemma_push_log_tagged(a, b, 0, 0, base, mem, task);
    let p = push_log(a, b, 0, 0, base, mem, task);
    let w = write_log(merged(a, b), base, mem, task);
    assert(tagged(w, task));
    let c = seq![clear_action(mem, task)];
    assert(tagged(c, task));
    lemma_tagged_concat(p, w, task);
    lemma_tagged_concat(p + w, c, task);
}

pub proof fn lemma_msort_tagged(s: Seq<u32>, lo: int, hi: int, off: int, mem: int, task: usize)
    ensures
        tagged(msort(s, lo, hi, off, mem, task).0, task),
    decreases hi - lo,
{
    if hi - lo > 1 {
        let mid = lo + (hi - lo) / 2;
        let l = msort(s, lo, mid, off, mem, task);
        lemma_msort_tagged(s, lo, mid, off, mem, task);
        let q = msort(l.1, mid, hi, off, mem, task);
        lemma_msort_tagged(l.1, mid, hi, off, mem, task);
        let a = q.1.subrange(lo, mid);
        let b = q.1.subrange(mid, hi);
        lemma_merge_log_tagged(a, b, off + lo, mem + (hi - lo) * 4, task);
        lemma_tagged_concat(l.0, q.0, task);
        lemma_tagged_concat(l.0 + q.0, merge_log(a, b, off + lo, mem + (hi - lo) * 4, task), task);
    }
}

} // verus!
