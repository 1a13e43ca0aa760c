//! The replay engine: its ghost view, the exact effect of one tick, and the
//! mode controller that regenerates and resets it.

use vstd::prelude::*;
use rand::rngs::SmallRng;
use crate::action::{Action, ActionKind, SortMode, ELEMENT_SIZE};
use crate::merge::{merge_sort_actions, merge_sort_log};
use crate::parallel::{parallel_log, parallel_merge_sort_actions};
use crate::random::{draw_in, seeded_rng};
use crate::replay::{replay, runs_clean};
use crate::scratch::{multi_after, multi_clean, total, zeros};
use crate::state::{
    all_empty, inactive_animation, pending, thread_state, AnimationInfo, Bar, BarState,
    MultiTempArrayState, TempArrayState,
};

verus! {

/// Most simulated tasks the engine runs.
pub const MAX_TASKS: usize = 8;

/// Smallest value a bar is drawn with.
pub const MIN_VALUE: u32 = 1;

/// Largest value a bar is drawn with.
pub const MAX_VALUE: u32 = 1000;

/// Nanoseconds that must accrue before the next action is applied.
pub const STEP_DELAY_NS: u64 = 1_000_000_000;

/// Rejected engine settings.
#[derive(Clone, Copy, Debug, PartialEq, Eq, Structural)]
pub enum ConfigError {
    /// No values to sort.
    EmptySequence,
    /// No task to run the parallel mode with.
    NoTasks,
}

/// The log did not fit the engine's state: a defect of whatever produced it.
#[derive(Clone, Copy, Debug, PartialEq, Eq, Structural)]
pub enum InvariantViolation {
    /// The action names a bar that does not exist.
    IndexOutOfRange,
    /// The action names a task that has no scratch region.
    UnknownTask,
    /// A `Write` found its scratch region empty.
    EmptyRegion,
    /// A `TempPush` would hold more values in scratch than there are bars.
    RegionOverflow,
}

/// The log each mode replays.
pub open spec fn log_for(mode: SortMode, s: Seq<u32>, tasks: int) -> Seq<Action> {
    match mode {
        SortMode::Sequential => merge_sort_log(s),
        SortMode::Parallel => parallel_log(s, tasks),
    }
}

/// Largest value of `s`, or 0 when it is empty.
pub open spec fn seq_max(s: Seq<u32>) -> u32
    decreases s.len(),
{
    if s.len() == 0 {
        0
    } else {
        let m = seq_max(s.drop_last());
        if s.last() > m {
            s.last()
        } else {
            m
        }
    }
}

/// Largest memory figure that the log reports.
pub open spec fn max_memory(log: Seq<Action>) -> usize
    decreases log.len(),
{
    if log.len() == 0 {
        0
    } else {
        let m = max_memory(log.drop_last());
        if log.last().memory > m {
            log.last().memory
        } else {
            m
        }
    }
}

pub open spec fn bar_values(bars: Seq<Bar>) -> Seq<u32> {
    bars.map_values(|b: Bar| b.value)
}

pub open spec fn idle_bars(values: Seq<u32>) -> Seq<Bar> {
    values.map_values(|v: u32| Bar { value: v, state: BarState::Idle })
}

/// Every bar that is not `Sorted` goes back to `Idle`.
pub open spec fn settle(bars: Seq<Bar>) -> Seq<Bar> {
    bars.map_values(
        |b: Bar|
            Bar {
                value: b.value,
                state: if b.state == BarState::Sorted {
                    BarState::Sorted
                } else {
                    BarState::Idle
                },
            },
    )
}

pub open spec fn all_sorted(bars: Seq<Bar>) -> Seq<Bar> {
    bars.map_values(|b: Bar| Bar { value: b.value, state: BarState::Sorted })
}

/// Marks bar `idx` with `st` unless it is already `Sorted`.
pub open spec fn mark(bars: Seq<Bar>, idx: int, st: BarState) -> Seq<Bar> {
    if 0 <= idx < bars.len() && bars[idx].state != BarState::Sorted {
        bars.update(idx, Bar { value: bars[idx].value, state: st })
    } else {
        bars
    }
}

pub open spec fn swap_bars(bars: Seq<Bar>, i: int, j: int) -> Seq<Bar> {
    bars.update(i, bars[j]).update(j, bars[i])
}

/// The mark an action paints: its task's color in parallel mode.
pub open spec fn paint(mode: SortMode, task: usize, plain: BarState) -> BarState {
    if mode == SortMode::Parallel {
        thread_state(task)
    } else {
        plain
    }
}

/// How many values each region holds.
pub open spec fn region_lens(regions: Seq<Seq<u32>>) -> Seq<int> {
    Seq::new(regions.len(), |t: int| regions[t].len() as int)
}

pub proof fn lemma_region_lens_total(regions: Seq<Seq<u32>>)
    ensures
        total(region_lens(regions)) == pending(regions),
    decreases regions.len(),
{
    if regions.len() > 0 {
        assert(region_lens(regions).drop_last() =~= region_lens(regions.drop_last()));
        lemma_region_lens_total(regions.drop_last());
    }
}

/// What the presentation layer sees of an engine.
#[verifier::ext_equal]
pub struct EngineView {
    pub bars: Seq<Bar>,
    pub actions: Seq<Action>,
    pub cursor: usize,
    pub max_value: u32,
    pub comparisons: usize,
    pub operations: usize,
    pub current_memory: usize,
    pub peak_memory: usize,
    /// Nanoseconds of replay so far.
    pub time_elapsed: u64,
    /// Nanoseconds accrued toward the next action.
    pub step_timer: u64,
    pub animation: AnimationInfo,
    /// The single scratch region of sequential mode.
    pub temp: Seq<u32>,
    /// The per-task scratch regions of parallel mode.
    pub regions: Seq<Seq<u32>>,
    pub mode: SortMode,
    pub num_threads: usize,
    pub initial: Seq<u32>,
    pub merge_level: usize,
}

pub open spec fn sat_add(a: u64, b: u64) -> u64 {
    if a + b > u64::MAX {
        u64::MAX
    } else {
        (a + b) as u64
    }
}

pub open spec fn max_usize(a: usize, b: usize) -> usize {
    if a >= b {
        a
    } else {
        b
    }
}

impl EngineView {
    pub open spec fn wf(self) -> bool {
        let n = self.initial.len();
        &&& n >= 1
        &&& n * 4 <= usize::MAX
        &&& forall|k: int| 0 <= k < n ==> MIN_VALUE <= #[trigger] self.initial[k] <= MAX_VALUE
        &&& self.max_value == seq_max(self.initial)
        &&& 1 <= self.num_threads <= MAX_TASKS
        &&& self.bars.len() == n
        &&& self.regions.len() == self.num_threads
        &&& self.actions == log_for(self.mode, self.initial, self.num_threads as int)
        &&& self.cursor <= self.actions.len() <= usize::MAX
        &&& self.comparisons + self.operations <= self.cursor
        &&& self.current_memory <= self.peak_memory
        &&& pending(self.regions) + self.temp.len() <= n
        &&& self.mode == SortMode::Sequential ==> all_empty(self.regions)
        &&& self.mode == SortMode::Parallel ==> self.temp.len() == 0
        &&& bar_values(self.bars) == replay(self.initial, self.actions.take(self.cursor as int))
        &&& self.mode == SortMode::Sequential ==> runs_clean(
            self.temp.len() as int,
            self.actions.subrange(self.cursor as int, self.actions.len() as int),
            n as int,
        )
        &&& self.mode == SortMode::Parallel ==> multi_clean(
            region_lens(self.regions),
            self.actions.subrange(self.cursor as int, self.actions.len() as int),
            n as int,
        )
    }

    /// The scratch region that task `t` uses in this mode.
    pub open spec fn region(self, t: usize) -> Seq<u32> {
        if self.mode == SortMode::Parallel {
            self.regions[t as int]
        } else {
            self.temp
        }
    }

    pub open spec fn with_region(self, t: usize, r: Seq<u32>) -> EngineView {
        if self.mode == SortMode::Parallel {
            EngineView { regions: self.regions.update(t as int, r), ..self }
        } else {
            EngineView { temp: r, ..self }
        }
    }

    /// Whether action `a` fits this state; one that does not is an
    /// invariant violation.
    pub open spec fn fits(self, a: Action) -> bool {
        let n = self.bars.len();
        let task_ok = self.mode == SortMode::Parallel ==> a.thread_id < self.num_threads;
        match a.kind {
            ActionKind::Compare | ActionKind::Swap => a.i < n && a.j < n,
            ActionKind::TempPush => a.i < n && task_ok && pending(self.regions) + self.temp.len()
                < n,
            ActionKind::Write => a.i < n && task_ok && self.region(a.thread_id).len() > 0,
            ActionKind::TempClear => task_ok,
            ActionKind::MergePhase | ActionKind::Done => true,
        }
    }

    /// The violation that an action that does not fit is reported as.
    pub open spec fn violation(self, a: Action) -> InvariantViolation {
        let n = self.bars.len();
        let task_ok = self.mode == SortMode::Parallel ==> a.thread_id < self.num_threads;
        if (a.kind == ActionKind::Compare || a.kind == ActionKind::Swap) && (a.i >= n || a.j >= n) {
            InvariantViolation::IndexOutOfRange
        } else if (a.kind == ActionKind::TempPush || a.kind == ActionKind::Write) && a.i >= n {
            InvariantViolation::IndexOutOfRange
        } else if !task_ok {
            InvariantViolation::UnknownTask
        } else if a.kind == ActionKind::Write {
            InvariantViolation::EmptyRegion
        } else {
            InvariantViolation::RegionOverflow
        }
    }

    /// Scratch bytes at the start of an action: the live regions in
    /// parallel mode, the figure the action carries otherwise.
    pub open spec fn memory_before(self, a: Action) -> usize {
        if self.mode == SortMode::Parallel {
            (pending(self.regions) * 4) as usize
        } else {
            a.memory
        }
    }

    /// The effect of applying `a`, which fits, on everything but the timers.
    pub open spec fn apply(self, a: Action) -> EngineView {
        let v = EngineView {
            bars: settle(self.bars),
            current_memory: self.memory_before(a),
            cursor: (self.cursor + 1) as usize,
            ..self
        };
        let st = |plain: BarState| paint(self.mode, a.thread_id, plain);
        let anim_off = AnimationInfo { active: false, ..self.animation };
        let w = match a.kind {
            ActionKind::Compare => EngineView {
                comparisons: (v.comparisons + 1) as usize,
                animation: anim_off,
                bars: mark(
                    mark(v.bars, a.i as int, st(BarState::Compare)),
                    a.j as int,
                    st(BarState::Compare),
                ),
                ..v
            },
            ActionKind::Swap => EngineView {
                operations: (v.operations + 1) as usize,
                animation: anim_off,
                bars: mark(
                    mark(swap_bars(v.bars, a.i as int, a.j as int), a.i as int, st(BarState::Swap)),
                    a.j as int,
                    st(BarState::Swap),
                ),
                ..v
            },
            ActionKind::TempPush => {
                let pushed = v.with_region(a.thread_id, v.region(a.thread_id).push(a.value));
                EngineView {
                    animation: AnimationInfo {
                        active: true,
                        source_idx: a.i,
                        target_idx: a.temp_idx,
                        source_value: a.value,
                        is_temp_push: true,
                        temp_target_idx: a.temp_idx,
                        thread_id: a.thread_id,
                    },
                    current_memory: if self.mode == SortMode::Parallel {
                        (pending(pushed.regions) * 4) as usize
                    } else {
                        v.current_memory
                    },
                    bars: mark(v.bars, a.i as int, st(BarState::Source)),
                    ..pushed
                }
            },
            ActionKind::Write => {
                let popped = v.with_region(a.thread_id, v.region(a.thread_id).drop_first());
                EngineView {
                    operations: (v.operations + 1) as usize,
                    animation: AnimationInfo {
                        active: true,
                        source_idx: a.temp_idx,
                        target_idx: a.i,
                        source_value: a.value,
                        is_temp_push: false,
                        temp_target_idx: a.temp_idx,
                        thread_id: a.thread_id,
                    },
                    bars: v.bars.update(
                        a.i as int,
                        Bar { value: a.value, state: st(BarState::Swap) },
                    ),
                    ..popped
                }
            },
            ActionKind::TempClear => EngineView {
                animation: anim_off,
                ..v.with_region(a.thread_id, seq![])
            },
            ActionKind::MergePhase => EngineView {
                merge_level: a.value as usize,
                animation: anim_off,
                ..v
            },
            ActionKind::Done => EngineView {
                current_memory: 0,
                animation: anim_off,
                temp: seq![],
                regions: Seq::new(v.regions.len(), |t: int| Seq::<u32>::empty()),
                bars: all_sorted(v.bars),
                ..v
            },
        };
        EngineView { peak_memory: max_usize(w.peak_memory, w.current_memory), ..w }
    }

    /// The state after one tick of `dt` nanoseconds.
    pub open spec fn tick(self, dt: u64) -> EngineView {
        if self.cursor >= self.actions.len() {
            EngineView { bars: all_sorted(self.bars), ..self }
        } else if !self.fits(self.actions[self.cursor as int]) {
            self
        } else {
            let timed = EngineView {
                time_elapsed: sat_add(self.time_elapsed, dt),
                step_timer: sat_add(self.step_timer, dt),
                ..self
            };
            if timed.step_timer < STEP_DELAY_NS {
                timed
            } else {
                EngineView { step_timer: 0, ..timed.apply(self.actions[self.cursor as int]) }
            }
        }
    }

    /// Whether a tick succeeds: it fails exactly on an action that does not fit.
    pub open spec fn tick_ok(self) -> bool {
        self.cursor >= self.actions.len() || self.fits(self.actions[self.cursor as int])
    }
}

} // verus!

verus! {

/// A fresh replay of `initial` in `mode` with `tasks` scratch regions.
pub open spec fn fresh_view(mode: SortMode, initial: Seq<u32>, tasks: usize) -> EngineView {
    let actions = log_for(mode, initial, tasks as int);
    EngineView {
        bars: idle_bars(initial),
        actions,
        cursor: 0,
        max_value: seq_max(initial),
        comparisons: 0,
        operations: 0,
        current_memory: 0,
        peak_memory: max_memory(actions),
        time_elapsed: 0,
        step_timer: 0,
        animation: inactive_animation(),
        temp: seq![],
        regions: Seq::new(tasks as nat, |t: int| Seq::<u32>::empty()),
        mode,
        num_threads: tasks,
        initial,
        merge_level: 0,
    }
}

pub open spec fn values_in_range(s: Seq<u32>) -> bool {
    forall|k: int| 0 <= k < s.len() ==> MIN_VALUE <= #[trigger] s[k] <= MAX_VALUE
}

/// Owns the canonical values, the log replayed from them, and the live
/// state the log drives.
pub struct Engine {
    bars: Vec<Bar>,
    actions: Vec<Action>,
    cursor: usize,
    rng: SmallRng,
    max_value: u32,
    comparisons: usize,
    operations: usize,
    current_memory: usize,
    peak_memory: usize,
    time_elapsed: u64,
    step_timer: u64,
    current_animation: AnimationInfo,
    temp_array: TempArrayState,
    multi_temp_arrays: MultiTempArrayState,
    mode: SortMode,
    num_threads: usize,
    initial_values: Vec<u32>,
    merge_level: usize,
}

impl View for Engine {
    type V = EngineView;

    closed spec fn view(&self) -> EngineView {
        EngineView {
            bars: self.bars@,
            actions: self.actions@,
            cursor: self.cursor,
            max_value: self.max_value,
            comparisons: self.comparisons,
            operations: self.operations,
            current_memory: self.current_memory,
            peak_memory: self.peak_memory,
            time_elapsed: self.time_elapsed,
            step_timer: self.step_timer,
            animation: self.current_animation,
            temp: self.temp_array.values@,
            regions: self.multi_temp_arrays.regions(),
            mode: self.mode,
            num_threads: self.num_threads,
            initial: self.initial_values@,
            merge_level: self.merge_level,
        }
    }
}

pub proof fn lemma_pending_empty(regions: Seq<Seq<u32>>)
    requires
        all_empty(regions),
    ensures
        pending(regions) == 0,
    decreases regions.len(),
{
    if regions.len() > 0 {
        lemma_pending_empty(regions.drop_last());
    }
}

pub proof fn lemma_pending_update(regions: Seq<Seq<u32>>, t: int, r: Seq<u32>)
    requires
        0 <= t < regions.len(),
    ensures
        pending(regions.update(t, r)) + regions[t].len() == pending(regions) + r.len(),
    decreases regions.len(),
{
    let u = regions.update(t, r);
    if t < regions.len() - 1 {
        assert(u.drop_last() =~= regions.drop_last().update(t, r));
        lemma_pending_update(regions.drop_last(), t, r);
    } else {
        assert(u.drop_last() =~= regions.drop_last());
    }
}

/// A fresh state is well formed.
pub proof fn lemma_fresh_wf(mode: SortMode, initial: Seq<u32>, tasks: usize)
    requires
        initial.len() >= 1,
        initial.len() * 4 <= usize::MAX,
        values_in_range(initial),
        1 <= tasks <= MAX_TASKS,
        log_for(mode, initial, tasks as int).len() <= usize::MAX,
    ensures
        fresh_view(mode, initial, tasks).wf(),
{
    let v = fresh_view(mode, initial, tasks);
    lemma_pending_empty(v.regions);
    crate::merge::lemma_merge_sort_log_clean(initial);
    crate::parallel::lemma_parallel_clean(initial, tasks as int, tasks as int);
    assert(region_lens(v.regions) =~= zeros(tasks as int));
    assert(v.actions.subrange(0, v.actions.len() as int) =~= v.actions);
    assert(v.actions.take(0) =~= Seq::<Action>::empty());
    assert(bar_values(v.bars) =~= initial);
}

/// Applying an action that fits keeps the state well formed.
pub proof fn lemma_apply_wf(v: EngineView, a: Action)
    requires
        v.wf(),
        v.cursor < v.actions.len(),
        a == v.actions[v.cursor as int],
        v.fits(a),
    ensures
        v.apply(a).wf(),
{
    let w = v.apply(a);
    let n = v.initial.len();
    let c = v.cursor as int;
    assert(v.actions.take(c + 1).drop_last() =~= v.actions.take(c));
    assert(v.actions.take(c + 1).last() == a);
    let vals = bar_values(v.bars);
    assert(bar_values(settle(v.bars)) =~= vals);
    let st = paint(v.mode, a.thread_id, BarState::Swap);
    let rest = v.actions.subrange(c, v.actions.len() as int);
    assert(rest[0] == a);
    assert(rest.drop_first() =~= w.actions.subrange(c + 1, w.actions.len() as int));
    if v.mode == SortMode::Parallel {
        assert(region_lens(w.regions) =~= multi_after(region_lens(v.regions), a));
    }
    match a.kind {
        ActionKind::Compare => {
            let b1 = mark(settle(v.bars), a.i as int, paint(v.mode, a.thread_id, BarState::Compare));
            assert(bar_values(b1) =~= vals);
            assert(bar_values(w.bars) =~= vals);
        },
        ActionKind::Swap => {
            let b0 = swap_bars(settle(v.bars), a.i as int, a.j as int);
            assert(bar_values(b0) =~= vals.update(a.i as int, vals[a.j as int]).update(
                a.j as int,
                vals[a.i as int],
            ));
            let b1 = mark(b0, a.i as int, st);
            assert(bar_values(b1) =~= bar_values(b0));
            assert(bar_values(w.bars) =~= bar_values(b0));
        },
        ActionKind::TempPush => {
            assert(bar_values(w.bars) =~= vals);
            if v.mode == SortMode::Parallel {
                lemma_pending_update(v.regions, a.thread_id as int, v.regions[a.thread_id as int].push(a.value));
            } else {
            }
        },
        ActionKind::Write => {
            assert(bar_values(w.bars) =~= vals.update(a.i as int, a.value));
            if v.mode == SortMode::Parallel {
                lemma_pending_update(
                    v.regions,
                    a.thread_id as int,
                    v.regions[a.thread_id as int].drop_first(),
                );
            }
        },
        ActionKind::TempClear => {
            if v.mode == SortMode::Parallel {
                lemma_pending_update(v.regions, a.thread_id as int, seq![]);
            }
        },
        ActionKind::MergePhase => {},
        ActionKind::Done => {
            assert(bar_values(w.bars) =~= vals);
            lemma_pending_empty(w.regions);
        },
    }
}

} // verus!

verus! {

fn generate(mode: SortMode, values: &Vec<u32>, tasks: usize) -> (r: Vec<Action>)
    requires
        values@.len() * ELEMENT_SIZE <= usize::MAX,
    ensures
        r@ == log_for(mode, values@, tasks as int),
{
    match mode {
        SortMode::Sequential => merge_sort_actions(values.as_slice()),
        SortMode::Parallel => parallel_merge_sort_actions(values.as_slice(), tasks),
    }
}

fn log_peak(actions: &Vec<Action>) -> (r: usize)
    ensures
        r == max_memory(actions@),
{
    let mut peak: usize = 0;
    let mut k: usize = 0;
    while k < actions.len()
        invariant
            k <= actions.len(),
            peak == max_memory(actions@.take(k as int)),
        decreases actions.len() - k,
    {
        proof {
            assert(actions@.take(k + 1).drop_last() =~= actions@.take(k as int));
        }
        if actions[k].memory > peak {
            peak = actions[k].memory;
        }
        k += 1;
    }
    proof {
        assert(actions@.take(k as int) =~= actions@);
    }
    peak
}

fn max_of(values: &Vec<u32>) -> (r: u32)
    ensures
        r == seq_max(values@),
{
    let mut m: u32 = 0;
    let mut k: usize = 0;
    while k < values.len()
        invariant
            k <= values.len(),
            m == seq_max(values@.take(k as int)),
        decreases values.len() - k,
    {
        proof {
            assert(values@.take(k + 1).drop_last() =~= values@.take(k as int));
        }
        if values[k] > m {
            m = values[k];
        }
        k += 1;
    }
    proof {
        assert(values@.take(k as int) =~= values@);
    }
    m
}

fn idle_bars_of(values: &Vec<u32>) -> (r: Vec<Bar>)
    ensures
        r@ == idle_bars(values@),
{
    let mut bars: Vec<Bar> = Vec::new();
    let mut k: usize = 0;
    while k < values.len()
        invariant
            k <= values.len(),
            bars@ == idle_bars(values@.take(k as int)),
        decreases values.len() - k,
    {
        bars.push(Bar { value: values[k], state: BarState::Idle });
        proof {
            assert(bars@ =~= idle_bars(values@.take(k + 1)));
        }
        k += 1;
    }
    proof {
        assert(values@.take(k as int) =~= values@);
    }
    bars
}

fn draw_values(rng: &mut SmallRng, size: usize) -> (r: Vec<u32>)
    ensures
        r@.len() == size,
        values_in_range(r@),
{
    let mut values: Vec<u32> = Vec::new();
    let mut k: usize = 0;
    while k < size
        invariant
            k <= size,
            values@.len() == k,
            values_in_range(values@),
        decreases size - k,
    {
        let v = draw_in(rng, MIN_VALUE, MAX_VALUE);
        values.push(v);
        k += 1;
    }
    values
}

impl Engine {
    /// An engine over `size` values drawn from `seed`, in sequential mode,
    /// with up to `MAX_TASKS` tasks for parallel mode.
    pub fn new(size: usize, seed: u64) -> (r: Result<Engine, ConfigError>)
        requires
            size * ELEMENT_SIZE <= usize::MAX,
        ensures
            size == 0 <==> r == Err::<Engine, ConfigError>(ConfigError::EmptySequence),
            size > 0 <==> r is Ok,
            r matches Ok(e) ==> {
                &&& e@.initial.len() == size
                &&& values_in_range(e@.initial)
                &&& e@ == fresh_view(SortMode::Sequential, e@.initial, MAX_TASKS)
                &&& e@.wf()
            },
    {
        Engine::with_tasks(size, MAX_TASKS, seed)
    }

    /// An engine over `size` values drawn from `seed`, in sequential mode;
    /// parallel mode runs `tasks` tasks, at most `MAX_TASKS`.
    pub fn with_tasks(size: usize, tasks: usize, seed: u64) -> (r: Result<Engine, ConfigError>)
        requires
            size * ELEMENT_SIZE <= usize::MAX,
        ensures
            size == 0 <==> r == Err::<Engine, ConfigError>(ConfigError::EmptySequence),
            size > 0 && tasks == 0 <==> r == Err::<Engine, ConfigError>(ConfigError::NoTasks),
            size > 0 && tasks > 0 <==> r is Ok,
            r matches Ok(e) ==> {
                &&& e@.initial.len() == size
                &&& values_in_range(e@.initial)
                &&& e@ == fresh_view(
                    SortMode::Sequential,
                    e@.initial,
                    if tasks < MAX_TASKS {
                        tasks
                    } else {
                        MAX_TASKS
                    },
                )
                &&& e@.wf()
            },
    {
        if size == 0 {
            return Err(ConfigError::EmptySequence);
        }
        if tasks == 0 {
            return Err(ConfigError::NoTasks);
        }
        let num_threads = if tasks < MAX_TASKS {
            tasks
        } else {
            MAX_TASKS
        };
        let mut rng = seeded_rng(seed);
        let values = draw_values(&mut rng, size);
        let max_value = max_of(&values);
        let mode = SortMode::Sequential;
        let actions = generate(mode, &values, num_threads);
        let peak_memory = log_peak(&actions);
        let bars = idle_bars_of(&values);
        let e = Engine {
            bars,
            actions,
            cursor: 0,
            rng,
            max_value,
            comparisons: 0,
            operations: 0,
            current_memory: 0,
            peak_memory,
            time_elapsed: 0,
            step_timer: 0,
            current_animation: AnimationInfo::inactive(),
            temp_array: TempArrayState::empty(),
            multi_temp_arrays: MultiTempArrayState::new(num_threads),
            mode,
            num_threads,
            initial_values: values,
            merge_level: 0,
        };
        proof {
            assert(e.actions.len() == e.actions@.len());
            assert(e@ =~~= fresh_view(mode, e@.initial, num_threads));
            lemma_fresh_wf(mode, e@.initial, num_threads);
        }
        Ok(e)
    }

    /// Switches to `mode`; a new mode replays its own log from the stored
    /// initial values, with every counter and region reset.
    pub fn set_mode(&mut self, mode: SortMode)
        requires
            old(self)@.wf(),
        ensures
            final(self)@.wf(),
            mode == old(self)@.mode ==> final(self)@ == old(self)@,
            mode != old(self)@.mode ==> final(self)@ == fresh_view(
                mode,
                old(self)@.initial,
                old(self)@.num_threads,
            ),
    {
        if self.mode != mode {
            self.mode = mode;
            self.regenerate_actions();
        }
    }

    fn regenerate_actions(&mut self)
        requires
            old(self)@.initial.len() >= 1,
            old(self)@.initial.len() * 4 <= usize::MAX,
            values_in_range(old(self)@.initial),
            old(self)@.max_value == seq_max(old(self)@.initial),
            1 <= old(self)@.num_threads <= MAX_TASKS,
        ensures
            final(self)@ == fresh_view(old(self)@.mode, old(self)@.initial, old(self)@.num_threads),
            final(self)@.wf(),
    {
        self.cursor = 0;
        self.comparisons = 0;
        self.operations = 0;
        self.current_memory = 0;
        self.time_elapsed = 0;
        self.step_timer = 0;
        self.current_animation = AnimationInfo::inactive();
        self.temp_array = TempArrayState::empty();
        self.multi_temp_arrays = MultiTempArrayState::new(self.num_threads);
        self.merge_level = 0;
        self.bars = idle_bars_of(&self.initial_values);
        self.actions = generate(self.mode, &self.initial_values, self.num_threads);
        self.peak_memory = log_peak(&self.actions);
        proof {
            assert(self.actions.len() == self.actions@.len());
            assert(self@ =~~= fresh_view(self.mode, self@.initial, self.num_threads));
            lemma_fresh_wf(self.mode, self@.initial, self.num_threads);
        }
    }

    /// Draws fresh values for every bar and restarts the current mode on them.
    pub fn reset(&mut self)
        requires
            old(self)@.wf(),
        ensures
            final(self)@.wf(),
            final(self)@.initial.len() == old(self)@.initial.len(),
            values_in_range(final(self)@.initial),
            final(self)@ == fresh_view(
                old(self)@.mode,
                final(self)@.initial,
                old(self)@.num_threads,
            ),
    {
        let size = self.bars.len();
        let values = draw_values(&mut self.rng, size);
        self.max_value = max_of(&values);
        self.initial_values = values;
        self.regenerate_actions();
    }

    /// The bars, and the largest initial value for normalizing heights.
    pub fn bars(&self) -> (r: (&[Bar], u32))
        ensures
            r.0@ == self@.bars,
            r.1 == self@.max_value,
    {
        (self.bars.as_slice(), self.max_value)
    }
}

} // verus!

verus! {

impl Engine {
    /// Advances the replay by one tick of `dt` nanoseconds: once enough time
    /// has accrued, exactly one action is applied. An action that does not
    /// fit the state would be reported with the state left as it was; the
    /// logs the engine generates always fit, so every tick succeeds.
    pub fn step(&mut self, dt: u64) -> (r: Result<(), InvariantViolation>)
        requires
            old(self)@.wf(),
        ensures
            final(self)@.wf(),
            final(self)@ == old(self)@.tick(dt),
            r is Ok <==> old(self)@.tick_ok(),
            r matches Err(e) ==> e == old(self)@.violation(
                old(self)@.actions[old(self)@.cursor as int],
            ),
            r is Ok,
    {
        proof {
            crate::laws::lemma_ticks_succeed(self@);
        }
        if self.cursor >= self.actions.len() {
            self.mark_all_sorted();
            proof {
                let v = old(self)@;
                assert(bar_values(all_sorted(v.bars)) =~= bar_values(v.bars));
            }
            return Ok(());
        }
        let action = self.actions[self.cursor];
        match self.check(action) {
            Some(e) => {
                return Err(e);
            },
            None => {},
        }
        self.time_elapsed = self.time_elapsed.saturating_add(dt);
        self.step_timer = self.step_timer.saturating_add(dt);
        if self.step_timer < STEP_DELAY_NS {
            proof {
                assert(self@ =~~= old(self)@.tick(dt));
            }
            return Ok(());
        }
        let ghost timed = self@;
        proof {
            lemma_apply_wf(timed, action);
        }
        self.apply_action(action);
        self.step_timer = 0;
        proof {
            assert(self@ =~~= old(self)@.tick(dt));
        }
        Ok(())
    }

    fn apply_action(&mut self, a: Action)
        requires
            old(self)@.wf(),
            old(self)@.cursor < old(self)@.actions.len(),
            a == old(self)@.actions[old(self)@.cursor as int],
            old(self)@.fits(a),
        ensures
            final(self)@ == old(self)@.apply(a),
    {
        let ghost v0 = self@;
        proof {
            lemma_apply_wf(v0, a);
            if v0.mode == SortMode::Sequential {
                lemma_pending_empty(v0.regions);
            }
        }
        self.settle_bars();
        let par = self.mode == SortMode::Parallel;
        self.current_memory = if par {
            self.multi_temp_arrays.total_memory()
        } else {
            a.memory
        };
        let t = a.thread_id;
        let ghost v1 = self@;
        assert(v1 == (EngineView {
            bars: settle(v0.bars),
            current_memory: v0.memory_before(a),
            ..v0
        }));
        match a.kind {
            ActionKind::Compare => {
                self.comparisons += 1;
                self.current_animation.active = false;
                let st = self.paint_for(t, BarState::Compare);
                self.mark(a.i, st);
                self.mark(a.j, st);
            },
            ActionKind::Swap => {
                self.operations += 1;
                self.current_animation.active = false;
                let bi = self.bars[a.i];
                let bj = self.bars[a.j];
                self.bars[a.i] = bj;
                self.bars[a.j] = bi;
                let st = self.paint_for(t, BarState::Swap);
                self.mark(a.i, st);
                self.mark(a.j, st);
            },
            ActionKind::TempPush => {
                self.current_animation = AnimationInfo {
                    active: true,
                    source_idx: a.i,
                    target_idx: a.temp_idx,
                    source_value: a.value,
                    is_temp_push: true,
                    temp_target_idx: a.temp_idx,
                    thread_id: t,
                };
                if par {
                    self.multi_temp_arrays.arrays[t].values.push(a.value);
                    proof {
                        assert(self.multi_temp_arrays.regions() =~~= v1.regions.update(
                            t as int,
                            v1.regions[t as int].push(a.value),
                        ));
                        lemma_pending_update(v1.regions, t as int, v1.regions[t as int].push(a.value));
                    }
                    self.current_memory = self.multi_temp_arrays.total_memory();
                } else {
                    self.temp_array.values.push(a.value);
                }
                let st = self.paint_for(t, BarState::Source);
                self.mark(a.i, st);
            },
            ActionKind::Write => {
                self.operations += 1;
                self.current_animation = AnimationInfo {
                    active: true,
                    source_idx: a.temp_idx,
                    target_idx: a.i,
                    source_value: a.value,
                    is_temp_push: false,
                    temp_target_idx: a.temp_idx,
                    thread_id: t,
                };
                if par {
                    self.multi_temp_arrays.arrays[t].values.remove(0);
                    proof {
                        assert(self.multi_temp_arrays.regions() =~~= v1.regions.update(
                            t as int,
                            v1.regions[t as int].drop_first(),
                        ));
                    }
                } else {
                    self.temp_array.values.remove(0);
                    proof {
                        assert(self.temp_array.values@ =~= v1.temp.drop_first());
                    }
                }
                let st = self.paint_for(t, BarState::Swap);
                self.bars[a.i] = Bar { value: a.value, state: st };
            },
            ActionKind::TempClear => {
                self.current_animation.active = false;
                if par {
                    self.multi_temp_arrays.arrays[t].values.clear();
                    proof {
                        assert(self.multi_temp_arrays.regions() =~~= v1.regions.update(
                            t as int,
                            seq![],
                        ));
                    }
                } else {
                    self.temp_array.values.clear();
                }
            },
            ActionKind::MergePhase => {
                self.merge_level = a.value as usize;
                self.current_animation.active = false;
            },
            ActionKind::Done => {
                self.current_memory = 0;
                self.current_animation.active = false;
                self.temp_array.values.clear();
                self.multi_temp_arrays.clear_all();
                self.mark_all_sorted();
                proof {
                    assert(self.multi_temp_arrays.regions() =~~= Seq::new(
                        v1.regions.len(),
                        |k: int| Seq::<u32>::empty(),
                    ));
                }
            },
        }
        self.cursor += 1;
        if self.current_memory > self.peak_memory {
            self.peak_memory = self.current_memory;
        }
        proof {
            assert(self@ =~~= v0.apply(a));
        }
    }

    fn check(&self, a: Action) -> (r: Option<InvariantViolation>)
        requires
            self@.wf(),
        ensures
            r is None <==> self@.fits(a),
            r matches Some(e) ==> e == self@.violation(a),
    {
        let n = self.bars.len();
        let par = self.mode == SortMode::Parallel;
        let task_ok = !par || a.thread_id < self.num_threads;
        match a.kind {
            ActionKind::Compare | ActionKind::Swap => {
                if a.i >= n || a.j >= n {
                    return Some(InvariantViolation::IndexOutOfRange);
                }
            },
            ActionKind::TempPush => {
                if a.i >= n {
                    return Some(InvariantViolation::IndexOutOfRange);
                }
                if !task_ok {
                    return Some(InvariantViolation::UnknownTask);
                }
                let held = if par {
                    self.pending_values()
                } else {
                    self.temp_array.values.len()
                };
                if held >= n {
                    return Some(InvariantViolation::RegionOverflow);
                }
            },
            ActionKind::Write => {
                if a.i >= n {
                    return Some(InvariantViolation::IndexOutOfRange);
                }
                if !task_ok {
                    return Some(InvariantViolation::UnknownTask);
                }
                let empty = if par {
                    self.multi_temp_arrays.arrays[a.thread_id].values.len() == 0
                } else {
                    self.temp_array.values.len() == 0
                };
                if empty {
                    return Some(InvariantViolation::EmptyRegion);
                }
            },
            ActionKind::TempClear => {
                if !task_ok {
                    return Some(InvariantViolation::UnknownTask);
                }
            },
            ActionKind::MergePhase | ActionKind::Done => {},
        }
        proof {
            if !par {
                lemma_pending_empty(self@.regions);
            }
        }
        None
    }

    /// Values held over all task regions.
    fn pending_values(&self) -> (r: usize)
        requires
            self@.wf(),
        ensures
            r == pending(self@.regions),
    {
        let regions = &self.multi_temp_arrays;
        let mut total: usize = 0;
        let mut k: usize = 0;
        while k < regions.arrays.len()
            invariant
                k <= regions.arrays.len(),
                regions.regions() == self@.regions,
                pending(self@.regions) <= usize::MAX,
                total == pending(regions.regions().take(k as int)),
            decreases regions.arrays.len() - k,
        {
            proof {
                let rs = regions.regions();
                assert(rs.take(k + 1).drop_last() =~= rs.take(k as int));
                crate::state::lemma_pending_prefix(rs, k + 1);
            }
            total = total + regions.arrays[k].values.len();
            k += 1;
        }
        proof {
            assert(regions.regions().take(k as int) =~= regions.regions());
        }
        total
    }

    fn paint_for(&self, task: usize, plain: BarState) -> (r: BarState)
        ensures
            r == paint(self.mode, task, plain),
    {
        if self.mode == SortMode::Parallel {
            BarState::from_thread_id(task)
        } else {
            plain
        }
    }

    fn mark(&mut self, idx: usize, state: BarState)
        ensures
            final(self)@ == (EngineView { bars: mark(old(self)@.bars, idx as int, state), ..old(self)@ }),
    {
        if idx < self.bars.len() {
            let b = self.bars[idx];
            if b.state != BarState::Sorted {
                self.bars[idx] = Bar { value: b.value, state };
            }
        }
        proof {
            assert(self@ =~~= (EngineView {
                bars: mark(old(self)@.bars, idx as int, state),
                ..old(self)@
            }));
        }
    }

    fn mark_all_sorted(&mut self)
        ensures
            final(self)@ == (EngineView { bars: all_sorted(old(self)@.bars), ..old(self)@ }),
    {
        let n = self.bars.len();
        let mut k: usize = 0;
        while k < n
            invariant
                k <= n,
                self.bars@.len() == n,
                self@ == (EngineView { bars: self@.bars, ..old(self)@ }),
                forall|x: int| 0 <= x < k ==> #[trigger] self.bars@[x] == (Bar { value: old(self)@.bars[x].value, state: BarState::Sorted }),
                forall|x: int| k <= x < n ==> #[trigger] self.bars@[x] == old(self)@.bars[x],
            decreases n - k,
        {
            let b = self.bars[k];
            self.bars[k] = Bar { value: b.value, state: BarState::Sorted };
            k += 1;
        }
        proof {
            assert(self@ =~~= (EngineView { bars: all_sorted(old(self)@.bars), ..old(self)@ }));
        }
    }

    fn settle_bars(&mut self)
        ensures
            final(self)@ == (EngineView { bars: settle(old(self)@.bars), ..old(self)@ }),
    {
        let n = self.bars.len();
        let mut k: usize = 0;
        while k < n
            invariant
                k <= n,
                self.bars@.len() == n,
                self@ == (EngineView { bars: self@.bars, ..old(self)@ }),
                forall|x: int|
                    0 <= x < k ==> #[trigger] self.bars@[x] == (Bar {
                        value: old(self)@.bars[x].value,
                        state: if old(self)@.bars[x].state == BarState::Sorted {
                            BarState::Sorted
                        } else {
                            BarState::Idle
                        },
                    }),
                forall|x: int| k <= x < n ==> #[trigger] self.bars@[x] == old(self)@.bars[x],
            decreases n - k,
        {
            let b = self.bars[k];
            if b.state != BarState::Sorted {
                self.bars[k] = Bar { value: b.value, state: BarState::Idle };
            }
            k += 1;
        }
        proof {
            assert(self@ =~~= (EngineView { bars: settle(old(self)@.bars), ..old(self)@ }));
        }
    }
}

} // verus!

verus! {

impl Engine {
    pub fn comparisons(&self) -> (r: usize)
        ensures
            r == self@.comparisons,
    {
        self.comparisons
    }

    /// Swaps and writes applied so far.
    pub fn operations(&self) -> (r: usize)
        ensures
            r == self@.operations,
    {
        self.operations
    }

    pub fn current_memory(&self) -> (r: usize)
        ensures
            r == self@.current_memory,
    {
        self.current_memory
    }

    pub fn peak_memory(&self) -> (r: usize)
        ensures
            r == self@.peak_memory,
    {
        self.peak_memory
    }

    /// Nanoseconds of replay so far.
    pub fn time_elapsed(&self) -> (r: u64)
        ensures
            r == self@.time_elapsed,
    {
        self.time_elapsed
    }

    pub fn merge_level(&self) -> (r: usize)
        ensures
            r == self@.merge_level,
    {
        self.merge_level
    }

    pub fn current_animation(&self) -> (r: AnimationInfo)
        ensures
            r == self@.animation,
    {
        self.current_animation
    }

    /// The scratch region of sequential mode.
    pub fn temp_array(&self) -> (r: &TempArrayState)
        ensures
            r.values@ == self@.temp,
    {
        &self.temp_array
    }

    /// The per-task scratch regions of parallel mode.
    pub fn multi_temp_arrays(&self) -> (r: &MultiTempArrayState)
        ensures
            r.regions() == self@.regions,
    {
        &self.multi_temp_arrays
    }

    pub fn mode(&self) -> (r: SortMode)
        ensures
            r == self@.mode,
    {
        self.mode
    }

    pub fn num_threads(&self) -> (r: usize)
        ensures
            r == self@.num_threads,
    {
        self.num_threads
    }

    /// Index of the next action to apply.
    pub fn cursor(&self) -> (r: usize)
        ensures
            r == self@.cursor,
    {
        self.cursor
    }

    pub fn actions(&self) -> (r: &[Action])
        ensures
            r@ == self@.actions,
    {
        self.actions.as_slice()
    }

    /// The values the current log sorts.
    pub fn initial_values(&self) -> (r: &[u32])
        ensures
            r@ == self@.initial,
    {
        self.initial_values.as_slice()
    }

    /// Whether every action has been applied.
    pub fn is_done(&self) -> (r: bool)
        ensures
            r == (self@.cursor >= self@.actions.len()),
    {
        self.cursor >= self.actions.len()
    }
}

} // verus!
