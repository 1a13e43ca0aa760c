//! Bars, their visual states, the animation descriptor and scratch regions.

use vstd::prelude::*;

verus! {

/// Visual state of one bar. `Thread0`..`Thread7` mark bars owned by a
/// simulated task.
#[derive(Clone, Copy, Debug, PartialEq, Eq, Structural)]
pub enum BarState {
    Idle,
    Compare,
    Swap,
    Sorted,
    Source,
    TempArray,
    Thread0,
    Thread1,
    Thread2,
    Thread3,
    Thread4,
    Thread5,
    Thread6,
    Thread7,
}

/// The ownership mark of task `t`; tasks past the eighth reuse the first mark.
pub open spec fn thread_state(t: usize) -> BarState {
    if t == 0 {
        BarState::Thread0
    } else if t == 1 {
        BarState::Thread1
    } else if t == 2 {
        BarState::Thread2
    } else if t == 3 {
        BarState::Thread3
    } else if t == 4 {
        BarState::Thread4
    } else if t == 5 {
        BarState::Thread5
    } else if t == 6 {
        BarState::Thread6
    } else if t == 7 {
        BarState::Thread7
    } else {
        BarState::Thread0
    }
}

impl BarState {
    pub fn from_thread_id(thread_id: usize) -> (r: Self)
        ensures
            r == thread_state(thread_id),
    {
        match thread_id {
            0 => BarState::Thread0,
            1 => BarState::Thread1,
            2 => BarState::Thread2,
            3 => BarState::Thread3,
            4 => BarState::Thread4,
            5 => BarState::Thread5,
            6 => BarState::Thread6,
            7 => BarState::Thread7,
            _ => BarState::Thread0,
        }
    }

    /// State code of task `thread_id`'s scratch region for the renderer:
    /// 14 to 21, the last shared by all tasks from the eighth on.
    pub fn temp_array_for_thread(thread_id: usize) -> (r: u32)
        ensures
            r == 14 + if (thread_id as u32) < 7 {
                thread_id as u32
            } else {
                7
            },
    {
        let t: u32 = #[verifier::truncate] (thread_id as u32);
        if t < 7 {
            14 + t
        } else {
            21
        }
    }
}

#[derive(Clone, Copy, Debug, PartialEq, Eq, Structural)]
pub struct Bar {
    pub value: u32,
    pub state: BarState,
}

/// The push or write that was applied last, for the renderer to animate.
/// The bar's normalized height is `source_value` over the engine's maximum.
#[derive(Clone, Copy, Debug, PartialEq, Eq, Structural)]
pub struct AnimationInfo {
    pub active: bool,
    pub source_idx: usize,
    pub target_idx: usize,
    pub source_value: u32,
    /// True for a push into scratch, false for a write back to a bar.
    pub is_temp_push: bool,
    pub temp_target_idx: usize,
    pub thread_id: usize,
}

pub open spec fn inactive_animation() -> AnimationInfo {
    AnimationInfo {
        active: false,
        source_idx: 0,
        target_idx: 0,
        source_value: 0,
        is_temp_push: false,
        temp_target_idx: 0,
        thread_id: 0,
    }
}

impl AnimationInfo {
    pub fn inactive() -> (r: Self)
        ensures
            r == inactive_animation(),
    {
        AnimationInfo {
            active: false,
            source_idx: 0,
            target_idx: 0,
            source_value: 0,
            is_temp_push: false,
            temp_target_idx: 0,
            thread_id: 0,
        }
    }
}

impl Default for AnimationInfo {
    fn default() -> (r: Self)
        ensures
            r == inactive_animation(),
    {
        AnimationInfo::inactive()
    }
}

/// One task's scratch region: the values it holds, oldest first.
#[derive(Clone, Debug)]
pub struct TempArrayState {
    pub values: Vec<u32>,
    pub left_bound: usize,
    pub right_bound: usize,
}

impl TempArrayState {
    pub fn empty() -> (r: Self)
        ensures
            r.values@ == Seq::<u32>::empty(),
            r.left_bound == 0,
            r.right_bound == 0,
    {
        TempArrayState { values: Vec::new(), left_bound: 0, right_bound: 0 }
    }
}

impl Default for TempArrayState {
    fn default() -> (r: Self)
        ensures
            r.values@ == Seq::<u32>::empty(),
            r.left_bound == 0,
            r.right_bound == 0,
    {
        TempArrayState::empty()
    }
}

/// Values held over all regions.
pub open spec fn pending(regions: Seq<Seq<u32>>) -> nat
    decreases regions.len(),
{
    if regions.len() == 0 {
        0
    } else {
        pending(regions.drop_last()) + regions.last().len()
    }
}

pub open spec fn all_empty(regions: Seq<Seq<u32>>) -> bool {
    forall|t: int| 0 <= t < regions.len() ==> (#[trigger] regions[t]).len() == 0
}

/// One scratch region per simulated task.
#[derive(Clone, Debug)]
pub struct MultiTempArrayState {
    pub arrays: Vec<TempArrayState>,
}

impl MultiTempArrayState {
    pub open spec fn regions(&self) -> Seq<Seq<u32>> {
        self.arrays@.map_values(|a: TempArrayState| a.values@)
    }

    pub fn new(num_threads: usize) -> (r: Self)
        ensures
            r.regions().len() == num_threads,
            all_empty(r.regions()),
            forall|k: int|
                0 <= k < r.arrays@.len() ==> (#[trigger] r.arrays@[k]).left_bound == 0
                    && r.arrays@[k].right_bound == 0,
    {
        let mut arrays: Vec<TempArrayState> = Vec::new();
        let mut k: usize = 0;
        while k < num_threads
            invariant
                k <= num_threads,
                arrays@.len() == k,
                forall|t: int| 0 <= t < k ==> (#[trigger] arrays@[t]).values@.len() == 0,
                forall|t: int|
                    0 <= t < k ==> (#[trigger] arrays@[t]).left_bound == 0
                        && arrays@[t].right_bound == 0,
            decreases num_threads - k,
        {
            arrays.push(TempArrayState::empty());
            k += 1;
        }
        MultiTempArrayState { arrays }
    }

    pub fn clear_all(&mut self)
        ensures
            final(self).regions().len() == old(self).regions().len(),
            all_empty(final(self).regions()),
            forall|k: int|
                0 <= k < final(self).arrays@.len() ==> (#[trigger] final(self).arrays@[k]).left_bound
                    == old(self).arrays@[k].left_bound && final(self).arrays@[k].right_bound
                    == old(self).arrays@[k].right_bound,
    {
        let n = self.arrays.len();
        let mut k: usize = 0;
        while k < n
            invariant
                k <= n,
                self.arrays@.len() == n,
                forall|t: int| 0 <= t < k ==> (#[trigger] self.arrays@[t]).values@.len() == 0,
                forall|t: int|
                    0 <= t < n ==> (#[trigger] self.arrays@[t]).left_bound == old(
                        self,
                    ).arrays@[t].left_bound && self.arrays@[t].right_bound == old(
                        self,
                    ).arrays@[t].right_bound,
            decreases n - k,
        {
            self.arrays[k].values.clear();
            k += 1;
        }
    }

    /// Bytes held over all regions, four per value.
    pub fn total_memory(&self) -> (r: usize)
        requires
            pending(self.regions()) * 4 <= usize::MAX,
        ensures
            r == pending(self.regions()) * 4,
    {
        let mut total: usize = 0;
        let mut k: usize = 0;
        while k < self.arrays.len()
            invariant
                k <= self.arrays.len(),
                pending(self.regions()) * 4 <= usize::MAX,
                total == pending(self.regions().take(k as int)) * 4,
            decreases self.arrays.len() - k,
        {
            proof {
                let rs = self.regions();
                assert(rs.take(k + 1).drop_last() =~= rs.take(k as int));
                lemma_pending_prefix(rs, k + 1);
            }
            total = total + self.arrays[k].values.len() * 4;
            k += 1;
        }
        proof {
            assert(self.regions().take(k as int) =~= self.regions());
        }
        total
    }
}

pub proof fn lemma_pending_prefix(regions: Seq<Seq<u32>>, k: int)
    requires
        0 <= k <= regions.len(),
    ensures
        pending(regions.take(k)) <= pending(regions),
    decreases regions.len(),
{
    if k < regions.len() {
        assert(regions.drop_last().take(k) =~= regions.take(k));
        lemma_pending_prefix(regions.drop_last(), k);
    } else {
        assert(regions.take(k) =~= regions);
    }
}

} // verus!
