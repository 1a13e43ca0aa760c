use sort_replay::{
    bubble_sort_actions, interleave_actions, merge_sort_actions, parallel_merge_sort_actions,
    replay_values, Action, ActionKind,
};

fn count(log: &[Action], kind: ActionKind) -> usize {
    log.iter().filter(|a| a.kind == kind).count()
}

fn is_sorted(v: &[u32]) -> bool {
    v.windows(2).all(|w| w[0] <= w[1])
}

fn single_done_last(log: &[Action]) -> bool {
    count(log, ActionKind::Done) == 1 && log.last().map(|a| a.kind) == Some(ActionKind::Done)
}

fn sample(n: usize, seed: u64) -> Vec<u32> {
    let mut x = seed;
    (0..n)
        .map(|_| {
            x = x.wrapping_mul(6364136223846793005).wrapping_add(1442695040888963407);
            ((x >> 33) % 1000) as u32 + 1
        })
        .collect()
}

#[test]
fn bubble_scenario_four_values() {
    let input = [4, 2, 3, 1];
    let log = bubble_sort_actions(&input);
    assert_eq!(replay_values(&input, &log), vec![1, 2, 3, 4]);
    assert_eq!(count(&log, ActionKind::Swap), 5);
    assert_eq!(count(&log, ActionKind::Compare), 6);
    assert!(single_done_last(&log));
}

#[test]
fn merge_scenario_single_value() {
    let log = merge_sort_actions(&[7]);
    assert_eq!(count(&log, ActionKind::Compare), 0);
    assert_eq!(count(&log, ActionKind::TempPush), 0);
    assert_eq!(count(&log, ActionKind::Write), 0);
    assert_eq!(count(&log, ActionKind::Done), 1);
    assert_eq!(log.len(), 1);
}

#[test]
fn merge_scenario_two_values() {
    let input = [5, 3];
    let log = merge_sort_actions(&input);
    let shape: Vec<(ActionKind, usize, usize, u32)> =
        log.iter().map(|a| (a.kind, a.i, a.j, a.value)).collect();
    assert_eq!(
        shape,
        vec![
            (ActionKind::Compare, 0, 1, 0),
            (ActionKind::TempPush, 1, 0, 3),
            (ActionKind::TempPush, 0, 0, 5),
            (ActionKind::Write, 0, 0, 3),
            (ActionKind::Write, 1, 0, 5),
            (ActionKind::TempClear, 0, 0, 0),
            (ActionKind::Done, 0, 0, 0),
        ]
    );
    assert_eq!(log[1].temp_idx, 0);
    assert_eq!(log[2].temp_idx, 1);
    for a in &log[..6] {
        assert_eq!(a.memory, 8);
    }
    assert_eq!(replay_values(&input, &log), vec![3, 5]);
}

#[test]
fn parallel_scenario_eight_values_four_tasks() {
    let input = [8, 7, 6, 5, 4, 3, 2, 1];
    let log = parallel_merge_sort_actions(&input, 4);
    let phases: Vec<(usize, u32)> = log
        .iter()
        .enumerate()
        .filter(|(_, a)| a.kind == ActionKind::MergePhase)
        .map(|(k, a)| (k, a.value))
        .collect();
    assert_eq!(phases.len(), 2);
    assert_eq!(phases[0].1, 1);
    assert_eq!(phases[1].1, 2);
    assert!(phases[1].0 < log.len() - 1);
    assert!(single_done_last(&log));
    // chunk size 2: the first phase sorts pairs (0,1), (2,3), (4,5), (6,7)
    let first_compares: Vec<(usize, usize)> = log
        .iter()
        .take_while(|a| a.kind != ActionKind::MergePhase)
        .filter(|a| a.kind == ActionKind::Compare)
        .map(|a| (a.i, a.j))
        .collect();
    assert_eq!(first_compares, vec![(0, 1), (2, 3), (4, 5), (6, 7)]);
    assert_eq!(replay_values(&input, &log), vec![1, 2, 3, 4, 5, 6, 7, 8]);
}

#[test]
fn every_generator_sorts_on_replay() {
    for n in 0..40 {
        let input = sample(n, n as u64 + 11);
        let b = bubble_sort_actions(&input);
        let m = merge_sort_actions(&input);
        assert!(is_sorted(&replay_values(&input, &b)));
        assert!(is_sorted(&replay_values(&input, &m)));
        for tasks in 0..10 {
            let p = parallel_merge_sort_actions(&input, tasks);
            let out = replay_values(&input, &p);
            assert!(is_sorted(&out));
            let mut expected = input.clone();
            expected.sort();
            assert_eq!(out, expected);
        }
    }
}

#[test]
fn logs_are_deterministic() {
    let input = sample(13, 5);
    assert_eq!(bubble_sort_actions(&input), bubble_sort_actions(&input));
    assert_eq!(merge_sort_actions(&input), merge_sort_actions(&input));
    assert_eq!(
        parallel_merge_sort_actions(&input, 3),
        parallel_merge_sort_actions(&input, 3)
    );
}

#[test]
fn every_log_ends_with_one_done() {
    for n in 0..20 {
        let input = sample(n, 77);
        assert!(single_done_last(&bubble_sort_actions(&input)));
        assert!(single_done_last(&merge_sort_actions(&input)));
        assert!(single_done_last(&parallel_merge_sort_actions(&input, 4)));
    }
}

#[test]
fn empty_input_gives_only_done() {
    for log in [
        bubble_sort_actions(&[]),
        merge_sort_actions(&[]),
        parallel_merge_sort_actions(&[], 4),
    ] {
        assert_eq!(log.len(), 1);
        assert_eq!(log[0].kind, ActionKind::Done);
    }
}

#[test]
fn bubble_keeps_values_at_every_prefix() {
    let input = [9, 1, 9, 4, 1, 7];
    let log = bubble_sort_actions(&input);
    let mut expected = input.to_vec();
    expected.sort();
    for k in 0..=log.len() {
        let mut now = replay_values(&input, &log[..k]);
        now.sort();
        assert_eq!(now, expected);
    }
}

#[test]
fn bubble_equal_values_make_no_swaps() {
    let log = bubble_sort_actions(&[5, 5, 5]);
    assert_eq!(count(&log, ActionKind::Swap), 0);
    assert_eq!(count(&log, ActionKind::Compare), 3);
}

#[test]
fn merge_memory_peaks_at_full_width() {
    let input = sample(16, 3);
    let log = merge_sort_actions(&input);
    let peak = log.iter().map(|a| a.memory).max().unwrap();
    assert_eq!(peak, 16 * 4);
    assert_eq!(log.last().unwrap().memory, 0);
}

fn tagged(task: usize, len: usize) -> Vec<Action> {
    (0..len)
        .map(|k| Action {
            kind: ActionKind::Compare,
            i: k,
            j: 0,
            value: 0,
            memory: 0,
            temp_idx: 0,
            thread_id: task,
        })
        .collect()
}

#[test]
fn interleave_is_round_robin() {
    let logs = vec![tagged(0, 3), tagged(1, 1), tagged(2, 2)];
    let out = interleave_actions(&logs);
    let order: Vec<(usize, usize)> = out.iter().map(|a| (a.thread_id, a.i)).collect();
    assert_eq!(order, vec![(0, 0), (1, 0), (2, 0), (0, 1), (2, 1), (0, 2)]);
}

#[test]
fn interleave_keeps_each_log_in_order() {
    let a = tagged(0, 5);
    let b = tagged(1, 2);
    let out = interleave_actions(&[a.clone(), b.clone()]);
    assert_eq!(out.len(), 7);
    let from_a: Vec<Action> = out.iter().copied().filter(|x| x.thread_id == 0).collect();
    let from_b: Vec<Action> = out.iter().copied().filter(|x| x.thread_id == 1).collect();
    assert_eq!(from_a, a);
    assert_eq!(from_b, b);
}

#[test]
fn interleave_of_nothing_is_empty() {
    assert!(interleave_actions(&[]).is_empty());
    assert!(interleave_actions(&[Vec::new(), Vec::new()]).is_empty());
}

#[test]
fn parallel_tasks_are_clamped() {
    let input = [3, 1, 2];
    // more tasks than values: one value per task, ids 0..3
    let log = parallel_merge_sort_actions(&input, 8);
    assert!(log.iter().all(|a| a.thread_id < 3));
    // zero tasks behaves as one
    let one = parallel_merge_sort_actions(&input, 0);
    assert_eq!(one, parallel_merge_sort_actions(&input, 1));
    assert_eq!(count(&one, ActionKind::MergePhase), 0);
}

#[test]
fn merge_equal_values_take_left_first() {
    let log = merge_sort_actions(&[2, 2]);
    let pushes: Vec<usize> = log
        .iter()
        .filter(|a| a.kind == ActionKind::TempPush)
        .map(|a| a.i)
        .collect();
    assert_eq!(pushes, vec![0, 1]);
    assert_eq!(replay_values(&[2, 2], &log), vec![2, 2]);
}

#[test]
fn replay_ignores_non_value_actions() {
    let log = vec![
        Action { kind: ActionKind::Compare, i: 0, j: 1, value: 0, memory: 0, temp_idx: 0, thread_id: 0 },
        Action { kind: ActionKind::Swap, i: 0, j: 1, value: 0, memory: 0, temp_idx: 0, thread_id: 0 },
        Action { kind: ActionKind::Write, i: 2, j: 0, value: 9, memory: 0, temp_idx: 0, thread_id: 0 },
        Action { kind: ActionKind::TempPush, i: 0, j: 0, value: 4, memory: 0, temp_idx: 0, thread_id: 0 },
    ];
    assert_eq!(replay_values(&[1, 2, 3], &log), vec![2, 1, 9]);
}
