use sort_replay::SortSystem;

fn scramble(mut v: Vec<u32>) -> Vec<u32> {
    let n = v.len();
    for i in 0..n {
        v.swap(i, (i * 1987 + 3) % n);
    }
    v
}

#[test]
fn sort_system_starts_scrambled() {
    let s = SortSystem::new(10);
    let mut v = s.values.clone();
    assert_eq!(s.values, scramble((1..=10).collect()));
    assert_ne!(s.values, (1..=10).collect::<Vec<u32>>());
    v.sort();
    assert_eq!(v, (1..=10).collect::<Vec<u32>>());
    assert_eq!((s.i, s.j, s.sorted), (0, 0, false));
}

#[test]
fn sort_system_scramble_is_fixed() {
    // position i trades places with (i * 1987 + 3) % 3
    let s = SortSystem::new(3);
    let mut v = vec![1, 2, 3];
    for i in 0..3 {
        let r = (i * 1987 + 3) % 3;
        v.swap(i, r);
    }
    assert_eq!(s.values, v);
}

#[test]
fn sort_system_sorts_then_scrambles_again() {
    let mut s = SortSystem::new(10);
    let n = 10;
    let steps = n * (n - 1) / 2 + n;
    for _ in 0..steps {
        s.step();
    }
    assert_eq!(s.i, n);
    assert_eq!(s.values, (1..=10).collect::<Vec<u32>>());
    s.step();
    assert_eq!((s.i, s.j), (0, 0));
    assert_eq!(s.values, scramble((1..=10).collect()));
}

#[test]
fn sort_system_empty() {
    let mut s = SortSystem::new(0);
    s.step();
    assert!(s.values.is_empty());
    assert_eq!((s.i, s.j, s.sorted), (0, 0, false));
}
