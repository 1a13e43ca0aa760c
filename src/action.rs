//! Actions, the atomic steps of a sorting log, and a few shapes of logs.

use vstd::prelude::*;

verus! {

/// Which generator the engine replays.
#[derive(Clone, Copy, Debug, PartialEq, Eq, Structural)]
pub enum SortMode {
    Sequential,
    Parallel,
}

/// The closed set of atomic steps a log is made of.
#[derive(Clone, Copy, Debug, PartialEq, Eq, Structural)]
pub enum ActionKind {
    Compare,
    Swap,
    /// Move the oldest value of a task's scratch region to bar `i`.
    Write,
    /// Append `value`, read from bar `i`, to a task's scratch region.
    TempPush,
    /// Empty a task's scratch region: its merge is complete.
    TempClear,
    /// Start of a tournament round; `value` carries the round number.
    MergePhase,
    Done,
}

/// One immutable step of a sorting trace.
#[derive(Clone, Copy, Debug, PartialEq, Eq, Structural)]
pub struct Action {
    pub kind: ActionKind,
    /// Main index: target of a `Write`, source of a `TempPush`.
    pub i: usize,
    /// Secondary index.
    pub j: usize,
    pub value: u32,
    /// Scratch bytes held by the emitting task when the action happened.
    pub memory: usize,
    /// Slot in the scratch region that a `TempPush` fills.
    pub temp_idx: usize,
    /// Logical task that owns the action.
    pub thread_id: usize,
}

/// Bytes that one value occupies in a scratch region.
pub const ELEMENT_SIZE: usize = 4;

pub open spec fn done_action() -> Action {
    Action { kind: ActionKind::Done, i: 0, j: 0, value: 0, memory: 0, temp_idx: 0, thread_id: 0 }
}

pub open spec fn compare_action(i: int, j: int, memory: int, task: usize) -> Action {
    Action {
        kind: ActionKind::Compare,
        i: i as usize,
        j: j as usize,
        value: 0,
        memory: memory as usize,
        temp_idx: 0,
        thread_id: task,
    }
}

pub open spec fn swap_action(i: int, j: int) -> Action {
    Action {
        kind: ActionKind::Swap,
        i: i as usize,
        j: j as usize,
        value: 0,
        memory: 0,
        temp_idx: 0,
        thread_id: 0,
    }
}

pub open spec fn push_action(src: int, value: u32, memory: int, slot: int, task: usize) -> Action {
    Action {
        kind: ActionKind::TempPush,
        i: src as usize,
        j: 0,
        value,
        memory: memory as usize,
        temp_idx: slot as usize,
        thread_id: task,
    }
}

pub open spec fn write_action(target: int, value: u32, memory: int, task: usize) -> Action {
    Action {
        kind: ActionKind::Write,
        i: target as usize,
        j: 0,
        value,
        memory: memory as usize,
        temp_idx: 0,
        thread_id: task,
    }
}

pub open spec fn clear_action(memory: int, task: usize) -> Action {
    Action {
        kind: ActionKind::TempClear,
        i: 0,
        j: 0,
        value: 0,
        memory: memory as usize,
        temp_idx: 0,
        thread_id: task,
    }
}

pub open spec fn phase_action(level: int) -> Action {
    Action {
        kind: ActionKind::MergePhase,
        i: 0,
        j: 0,
        value: level as u32,
        memory: 0,
        temp_idx: 0,
        thread_id: 0,
    }
}

pub fn make_done() -> (a: Action)
    ensures
        a == done_action(),
{
    Action { kind: ActionKind::Done, i: 0, j: 0, value: 0, memory: 0, temp_idx: 0, thread_id: 0 }
}

/// A sequence in non-descending order.
pub open spec fn sorted(s: Seq<u32>) -> bool {
    forall|a: int, b: int| 0 <= a <= b < s.len() ==> s[a] <= s[b]
}

/// Exactly one `Done`, and it is the last action.
pub open spec fn ends_with_single_done(log: Seq<Action>) -> bool {
    &&& log.len() >= 1
    &&& log.last().kind == ActionKind::Done
    &&& forall|k: int| 0 <= k < log.len() - 1 ==> log[k].kind != ActionKind::Done
}

} // verus!
