use algs::lprh_hash_table::{LinearProbingRobinHoodHashTable, RobinHoodSlot};

fn chars(s: &str) -> Vec<char> {
    s.chars().collect()
}

const NAMES: [&str; 8] = ["one", "two", "three", "four", "five", "six", "seven", "eight"];

fn slot_is(t: &LinearProbingRobinHoodHashTable, i: usize, key: usize, offset: usize) -> bool {
    match t.slot(i) {
        RobinHoodSlot::Occupied(k, o, _) => *k == key && *o == offset,
        RobinHoodSlot::Empty => false,
    }
}

fn offsets_consistent(t: &LinearProbingRobinHoodHashTable) -> bool {
    let cap = t.capacity();
    (0..cap).all(|i| match t.slot(i) {
        RobinHoodSlot::Occupied(k, o, _) => (k % cap + o) % cap == i,
        RobinHoodSlot::Empty => true,
    })
}

#[test]
fn lprh_scenario_eviction_and_backward_shift() {
    let mut t = LinearProbingRobinHoodHashTable::new(10).unwrap();
    for k in 1..=8usize {
        t.insert(k, chars(NAMES[k - 1]));
    }
    t.insert(11, chars("eleven"));
    assert_eq!(t.capacity(), 10);
    assert_eq!(t.size(), 9);
    for k in 1..=8usize {
        assert_eq!(t.get(k), Some(&chars(NAMES[k - 1])));
    }
    assert_eq!(t.get(11), Some(&chars("eleven")));
    assert!(slot_is(&t, 1, 1, 0));
    assert!(slot_is(&t, 2, 11, 1));
    for k in 2..=8usize {
        assert!(slot_is(&t, k + 1, k, 1));
    }
    assert!(offsets_consistent(&t));

    t.delete(4);
    assert!(t.get(4).is_none());
    assert_eq!(t.size(), 8);
    for k in 5..=8usize {
        assert!(slot_is(&t, k, k, 0));
    }
    assert!(matches!(t.slot(9), RobinHoodSlot::Empty));
    assert!(offsets_consistent(&t));

    t.insert(11, chars("eleven"));
    assert_eq!(t.size(), 8);

    t.insert(4, chars("four"));
    assert_eq!(t.size(), 9);
    assert!(offsets_consistent(&t));

    t.insert(12, chars("twelve"));
    assert_eq!(t.size(), 10);

    t.delete(12);
    assert_eq!(t.size(), 9);
    assert!(t.get(12).is_none());
    assert!(offsets_consistent(&t));

    t.insert(9, chars("nine"));
    t.insert(10, chars("ten"));
    t.insert(12, chars("twelve"));
    assert_eq!(t.capacity(), 20);
    assert_eq!(t.size(), 12);
    assert!(offsets_consistent(&t));
    for k in 1..=12usize {
        assert!(t.get(k).is_some());
    }
}

#[test]
fn lprh_rejects_zero_capacity() {
    assert!(LinearProbingRobinHoodHashTable::new(0).is_none());
}

#[test]
fn lprh_round_trip_and_offsets() {
    let mut t = LinearProbingRobinHoodHashTable::new(4).unwrap();
    for k in 0..60usize {
        t.insert(k * 5 % 97, vec![char::from(b'a' + (k % 26) as u8)]);
        assert!(offsets_consistent(&t));
    }
    for k in 0..60usize {
        assert_eq!(t.get(k * 5 % 97), Some(&vec![char::from(b'a' + (k % 26) as u8)]));
    }
    assert!(t.size() <= t.capacity());
}

#[test]
fn lprh_delete_removes_only_target() {
    let mut t = LinearProbingRobinHoodHashTable::new(8).unwrap();
    for k in [1usize, 9, 17, 2, 10, 3] {
        t.insert(k, vec![char::from(b'a' + k as u8)]);
    }
    t.delete(9);
    assert!(t.get(9).is_none());
    for k in [1usize, 17, 2, 10, 3] {
        assert_eq!(t.get(k), Some(&vec![char::from(b'a' + k as u8)]));
    }
    assert!(offsets_consistent(&t));
    t.delete(42);
    assert_eq!(t.size(), 5);
}

#[test]
fn lprh_wrapping_run() {
    let mut t = LinearProbingRobinHoodHashTable::new(5).unwrap();
    t.insert(4, chars("a"));
    t.insert(9, chars("b"));
    t.insert(14, chars("c"));
    assert!(slot_is(&t, 4, 4, 0));
    assert!(slot_is(&t, 0, 9, 1));
    assert!(slot_is(&t, 1, 14, 2));
    t.delete(4);
    assert!(slot_is(&t, 4, 9, 0));
    assert!(slot_is(&t, 0, 14, 1));
    assert!(matches!(t.slot(1), RobinHoodSlot::Empty));
    assert_eq!(t.get(14), Some(&chars("c")));
}

#[test]
fn lprh_resize_keeps_entries() {
    let mut t = LinearProbingRobinHoodHashTable::new(3).unwrap();
    t.insert(1, chars("a"));
    t.insert(4, chars("b"));
    t.insert(7, chars("c"));
    assert!(!t.resize_to(2));
    t.resize();
    assert_eq!(t.capacity(), 6);
    t.resize();
    assert_eq!(t.capacity(), 12);
    assert_eq!(t.get(1), Some(&chars("a")));
    assert_eq!(t.get(4), Some(&chars("b")));
    assert_eq!(t.get(7), Some(&chars("c")));
    assert!(offsets_consistent(&t));
}
