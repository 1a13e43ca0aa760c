//! Sorting algorithms turned into replayable logs of atomic actions, a
//! round-robin interleaver that simulates concurrent tasks, and a replay
//! engine that steps through a log one action per tick.

pub mod action;
pub mod replay;
pub mod bubble;
pub mod merge;
pub mod interleave;
pub mod parallel;
pub mod state;
pub mod engine;
pub mod stepper;
pub mod laws;
pub mod scratch;
mod random;

pub use action::{Action, ActionKind, SortMode, ELEMENT_SIZE};
pub use bubble::bubble_sort_actions;
pub use merge::merge_sort_actions;
pub use parallel::parallel_merge_sort_actions;
pub use engine::{ConfigError, Engine, InvariantViolation, MAX_TASKS, MAX_VALUE, MIN_VALUE, STEP_DELAY_NS};
pub use interleave::interleave_actions;
pub use replay::replay_values;
pub use state::{AnimationInfo, Bar, BarState, MultiTempArrayState, TempArrayState};
pub use stepper::SortSystem;
