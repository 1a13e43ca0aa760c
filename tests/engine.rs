use sort_replay::{
    merge_sort_actions, parallel_merge_sort_actions, AnimationInfo, BarState, ConfigError,
    Engine, InvariantViolation, MultiTempArrayState, SortMode, STEP_DELAY_NS,
};

fn run_to_end(e: &mut Engine) {
    let mut guard = 0;
    while !e.is_done() {
        e.step(STEP_DELAY_NS).unwrap();
        guard += 1;
        assert!(guard < 100_000);
    }
    e.step(0).unwrap();
}

#[test]
fn engine_rejects_empty_sequence() {
    assert!(matches!(Engine::new(0, 1), Err(ConfigError::EmptySequence)));
}

#[test]
fn engine_rejects_zero_tasks() {
    assert!(matches!(Engine::with_tasks(5, 0, 1), Err(ConfigError::NoTasks)));
}

#[test]
fn engine_draws_values_in_range() {
    let e = Engine::new(200, 42).unwrap();
    let values = e.initial_values();
    assert_eq!(values.len(), 200);
    assert!(values.iter().all(|&v| (1..=1000).contains(&v)));
    // the draws vary: not every bar holds the bound it was drawn from
    assert!(values.iter().any(|&v| v != 1));
    assert!(values.iter().any(|&v| v != values[0]));
    let (bars, max) = e.bars();
    assert_eq!(max, *values.iter().max().unwrap());
    assert!(bars.iter().all(|b| b.state == BarState::Idle));
}

#[test]
fn engine_same_seed_same_values() {
    let a = Engine::new(30, 9).unwrap();
    let b = Engine::new(30, 9).unwrap();
    let c = Engine::new(30, 10).unwrap();
    assert_eq!(a.initial_values(), b.initial_values());
    assert_ne!(a.initial_values(), c.initial_values());
}

#[test]
fn engine_starts_with_sequential_log() {
    let e = Engine::new(12, 3).unwrap();
    assert_eq!(e.mode(), SortMode::Sequential);
    assert_eq!(e.num_threads(), 8);
    assert_eq!(e.actions(), merge_sort_actions(e.initial_values()).as_slice());
    let peak = e.actions().iter().map(|a| a.memory).max().unwrap();
    assert_eq!(e.peak_memory(), peak);
    assert_eq!(e.cursor(), 0);
}

#[test]
fn engine_waits_for_step_interval() {
    let mut e = Engine::new(6, 4).unwrap();
    e.step(STEP_DELAY_NS / 2).unwrap();
    assert_eq!(e.cursor(), 0);
    assert_eq!(e.time_elapsed(), STEP_DELAY_NS / 2);
    e.step(STEP_DELAY_NS / 2).unwrap();
    assert_eq!(e.cursor(), 1);
    assert_eq!(e.comparisons(), 1);
    e.step(STEP_DELAY_NS - 1).unwrap();
    assert_eq!(e.cursor(), 1);
}

#[test]
fn engine_replays_to_sorted_bars() {
    for mode in [SortMode::Sequential, SortMode::Parallel] {
        let mut e = Engine::new(20, 5).unwrap();
        e.set_mode(mode);
        let mut expected = e.initial_values().to_vec();
        expected.sort();
        let mut last_cursor = 0;
        let mut last_peak = e.peak_memory();
        while !e.is_done() {
            e.step(STEP_DELAY_NS).unwrap();
            assert!(e.cursor() >= last_cursor);
            assert!(e.peak_memory() >= last_peak);
            assert!(e.peak_memory() >= e.current_memory());
            last_cursor = e.cursor();
            last_peak = e.peak_memory();
        }
        let (bars, _) = e.bars();
        let values: Vec<u32> = bars.iter().map(|b| b.value).collect();
        assert_eq!(values, expected);
        assert!(bars.iter().all(|b| b.state == BarState::Sorted));
        assert_eq!(e.current_memory(), 0);
        assert!(e.temp_array().values.is_empty());
    }
}

#[test]
fn engine_counts_comparisons_and_operations() {
    let mut e = Engine::new(10, 8).unwrap();
    let compares = e.actions().iter().filter(|a| a.kind == sort_replay::ActionKind::Compare).count();
    let writes = e.actions().iter().filter(|a| a.kind == sort_replay::ActionKind::Write).count();
    run_to_end(&mut e);
    assert_eq!(e.comparisons(), compares);
    assert_eq!(e.operations(), writes);
}

#[test]
fn engine_set_mode_regenerates_from_initial_values() {
    let mut e = Engine::new(9, 6).unwrap();
    let initial = e.initial_values().to_vec();
    for _ in 0..5 {
        e.step(STEP_DELAY_NS).unwrap();
    }
    e.set_mode(SortMode::Parallel);
    assert_eq!(e.cursor(), 0);
    assert_eq!(e.comparisons(), 0);
    assert_eq!(e.initial_values(), initial.as_slice());
    assert_eq!(e.actions(), parallel_merge_sort_actions(&initial, 8).as_slice());
    let (bars, _) = e.bars();
    assert!(bars.iter().zip(initial.iter()).all(|(b, &v)| b.value == v && b.state == BarState::Idle));
    // the same mode again changes nothing
    e.step(STEP_DELAY_NS).unwrap();
    e.set_mode(SortMode::Parallel);
    assert_eq!(e.cursor(), 1);
}

#[test]
fn engine_reset_draws_new_values() {
    let mut e = Engine::new(25, 12).unwrap();
    let before = e.initial_values().to_vec();
    for _ in 0..3 {
        e.step(STEP_DELAY_NS).unwrap();
    }
    e.reset();
    assert_eq!(e.cursor(), 0);
    assert_eq!(e.merge_level(), 0);
    assert_eq!(e.initial_values().len(), 25);
    assert_ne!(e.initial_values(), before.as_slice());
    assert_eq!(e.current_animation(), AnimationInfo::inactive());
}

#[test]
fn engine_parallel_marks_task_colors() {
    let mut e = Engine::with_tasks(8, 4, 2).unwrap();
    e.set_mode(SortMode::Parallel);
    e.step(STEP_DELAY_NS).unwrap();
    let first = e.actions()[0];
    assert_eq!(first.kind, sort_replay::ActionKind::Compare);
    let (bars, _) = e.bars();
    assert_eq!(bars[first.i].state, BarState::from_thread_id(first.thread_id));
}

#[test]
fn engine_tracks_merge_phase_and_memory() {
    let mut e = Engine::with_tasks(8, 4, 21).unwrap();
    e.set_mode(SortMode::Parallel);
    let mut levels = Vec::new();
    while !e.is_done() {
        let next = e.actions()[e.cursor()];
        e.step(STEP_DELAY_NS).unwrap();
        if next.kind == sort_replay::ActionKind::MergePhase {
            levels.push(e.merge_level());
        }
        if next.kind == sort_replay::ActionKind::TempPush {
            let held: usize = e.multi_temp_arrays().arrays.iter().map(|a| a.values.len()).sum();
            assert_eq!(e.current_memory(), held * 4);
            let anim = e.current_animation();
            assert!(anim.active && anim.is_temp_push);
            assert_eq!(anim.source_value, next.value);
        }
    }
    assert_eq!(levels, vec![1, 2]);
}

#[test]
fn engine_sequential_scratch_is_fifo() {
    let mut e = Engine::new(2, 0).unwrap();
    let log = e.actions().to_vec();
    for a in &log {
        e.step(STEP_DELAY_NS).unwrap();
        if a.kind == sort_replay::ActionKind::Write {
            let (bars, _) = e.bars();
            assert_eq!(bars[a.i].value, a.value);
            assert_eq!(bars[a.i].state, BarState::Swap);
        }
    }
    assert!(e.is_done());
}

#[test]
fn engine_done_is_idempotent() {
    let mut e = Engine::new(4, 1).unwrap();
    run_to_end(&mut e);
    let c = e.cursor();
    e.step(STEP_DELAY_NS).unwrap();
    assert_eq!(e.cursor(), c);
    let (bars, _) = e.bars();
    assert!(bars.iter().all(|b| b.state == BarState::Sorted));
}

#[test]
fn violation_variants_are_distinct() {
    let all = [
        InvariantViolation::IndexOutOfRange,
        InvariantViolation::UnknownTask,
        InvariantViolation::EmptyRegion,
        InvariantViolation::RegionOverflow,
    ];
    for (x, a) in all.iter().enumerate() {
        for (y, b) in all.iter().enumerate() {
            assert_eq!(x == y, a == b);
        }
    }
}

#[test]
fn bar_state_thread_marks() {
    assert_eq!(BarState::from_thread_id(0), BarState::Thread0);
    assert_eq!(BarState::from_thread_id(5), BarState::Thread5);
    assert_eq!(BarState::from_thread_id(7), BarState::Thread7);
    assert_eq!(BarState::from_thread_id(8), BarState::Thread0);
    assert_eq!(BarState::temp_array_for_thread(0), 14);
    assert_eq!(BarState::temp_array_for_thread(3), 17);
    assert_eq!(BarState::temp_array_for_thread(7), 21);
    assert_eq!(BarState::temp_array_for_thread(100), 21);
}

#[test]
fn multi_temp_arrays_memory() {
    let mut m = MultiTempArrayState::new(3);
    assert_eq!(m.arrays.len(), 3);
    assert_eq!(m.total_memory(), 0);
    m.arrays[0].values.push(4);
    m.arrays[2].values.extend([1, 2, 3]);
    assert_eq!(m.total_memory(), 16);
    m.clear_all();
    assert_eq!(m.arrays.len(), 3);
    assert_eq!(m.total_memory(), 0);
}

#[test]
fn defaults_are_empty() {
    assert_eq!(AnimationInfo::default(), AnimationInfo::inactive());
    assert!(!AnimationInfo::default().active);
    let t = sort_replay::TempArrayState::default();
    assert!(t.values.is_empty());
    assert_eq!((t.left_bound, t.right_bound), (0, 0));
}
