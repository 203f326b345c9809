use algs::cuckoo_hash_table::LinearProbingRobinHoodHashTable;

fn chars(s: &str) -> Vec<char> {
    s.chars().collect()
}

const NAMES: [&str; 8] = ["one", "two", "three", "four", "five", "six", "seven", "eight"];

fn in_one_of_two_slots(t: &LinearProbingRobinHoodHashTable, key: usize) -> bool {
    let p = t.get_primary_index(key);
    let q = t.get_secondary_index(key);
    let at = |i: usize| matches!(t.slot(i), Some((k, _)) if *k == key);
    at(p) || at(q)
}

#[test]
fn two_slot_scenario() {
    let mut t = LinearProbingRobinHoodHashTable::new(10).unwrap();
    for k in 1..=8usize {
        assert!(t.insert(k, chars(NAMES[k - 1])).is_empty());
    }
    assert!(t.insert(11, chars("eleven")).is_empty());
    assert_eq!(t.capacity(), 10);
    assert_eq!(t.size(), 9);
    for k in 1..=8usize {
        assert_eq!(t.get(k), Some(&chars(NAMES[k - 1])));
    }
    assert_eq!(t.get(11), Some(&chars("eleven")));

    t.delete(4);
    assert!(t.get(4).is_none());
    assert_eq!(t.size(), 8);
    assert!(t.insert(11, chars("eleven")).is_empty());
    assert_eq!(t.size(), 8);
    assert!(t.insert(4, chars("four")).is_empty());
    assert_eq!(t.size(), 9);
    assert!(t.insert(12, chars("twelve")).is_empty());
    assert_eq!(t.size(), 10);
    t.delete(12);
    assert_eq!(t.size(), 9);
    assert!(t.get(12).is_none());

    for (k, v) in [(9usize, "nine"), (10, "ten"), (12, "twelve"), (16, "sixteen"), (36, "thirty_six"), (56, "fifty_six")] {
        assert!(t.insert(k, chars(v)).is_empty());
    }
    assert_eq!(t.capacity(), 40);
    assert_eq!(t.size(), 15);

    assert!(t.insert(15, chars("fifteen")).is_empty());
    assert!(t.insert(35, chars("thirty_five")).is_empty());
    assert_eq!(t.capacity(), 40);
    assert_eq!(t.size(), 17);
    assert!(t.get(15).is_some());
    assert!(t.get(35).is_some());

    t.delete(36);
    assert_eq!(t.size(), 16);
    assert!(t.get(35).is_some());
    assert!(t.get(56).is_some());
    assert!(t.get(16).is_some());
    assert!(t.get(36).is_none());

    t.delete(35);
    assert_eq!(t.size(), 15);
    assert!(t.get(36).is_none());
    assert!(t.get(56).is_some());
    assert!(t.get(16).is_some());
}

#[test]
fn two_slot_chain_places_in_candidate_slots() {
    let mut t = LinearProbingRobinHoodHashTable::new(10).unwrap();
    for k in 1..=8usize {
        t.insert(k, chars(NAMES[k - 1]));
    }
    t.insert(11, chars("eleven"));
    assert!(matches!(t.slot(3), Some((11, _))));
    assert!(matches!(t.slot(5), Some((3, _))));
    assert!(matches!(t.slot(7), Some((5, _))));
    assert!(matches!(t.slot(9), Some((7, _))));
    for k in [1usize, 2, 3, 4, 5, 6, 7, 8, 11] {
        assert!(in_one_of_two_slots(&t, k));
    }
}

#[test]
fn two_slot_cycle_grows_table() {
    let mut t = LinearProbingRobinHoodHashTable::new(10).unwrap();
    assert!(t.insert(1, chars("a")).is_empty());
    assert!(t.insert(11, chars("b")).is_empty());
    assert!(t.insert(21, chars("c")).is_empty());
    assert_eq!(t.capacity(), 20);
    assert_eq!(t.size(), 3);
    for (k, v) in [(1usize, "a"), (11, "b"), (21, "c")] {
        assert_eq!(t.get(k), Some(&chars(v)));
        assert!(in_one_of_two_slots(&t, k));
    }
}

#[test]
fn two_slot_indices() {
    let t = LinearProbingRobinHoodHashTable::new(10).unwrap();
    assert_eq!(t.get_primary_index(27), 7);
    assert_eq!(t.get_secondary_index(27), 9);
    assert_eq!(t.get_secondary_index(29), 1);
    assert!(LinearProbingRobinHoodHashTable::new(0).is_none());
}

#[test]
fn two_slot_delete_removes_only_target() {
    let mut t = LinearProbingRobinHoodHashTable::new(8).unwrap();
    for k in [1usize, 9, 2, 10, 3] {
        assert!(t.insert(k, vec![char::from(b'a' + k as u8)]).is_empty());
    }
    t.delete(9);
    assert!(t.get(9).is_none());
    for k in [1usize, 2, 10, 3] {
        assert_eq!(t.get(k), Some(&vec![char::from(b'a' + k as u8)]));
    }
    assert_eq!(t.size(), 4);
}

#[test]
fn two_slot_resize_and_round_trip() {
    let mut t = LinearProbingRobinHoodHashTable::new(4).unwrap();
    for k in 0..40usize {
        assert!(t.insert(k * 3, vec![char::from(b'a' + (k % 26) as u8)]).is_empty());
    }
    for k in 0..40usize {
        assert_eq!(t.get(k * 3), Some(&vec![char::from(b'a' + (k % 26) as u8)]));
        assert!(in_one_of_two_slots(&t, k * 3));
    }
    let c = t.capacity();
    assert!(t.resize_to(c - 1).is_none());
    let unplaced = t.resize_to(c * 2).unwrap();
    assert!(unplaced.is_empty());
    assert!(t.capacity() >= c * 2);
    assert!(t.resize().is_empty());
    for k in 0..40usize {
        assert!(t.get(k * 3).is_some());
    }
    assert_eq!(t.size(), 40);
}

#[test]
fn two_slot_overwrite_at_secondary_keeps_one_copy() {
    let mut t = LinearProbingRobinHoodHashTable::new(10).unwrap();
    assert!(t.insert(1, chars("a")).is_empty());
    assert!(t.insert(11, chars("b")).is_empty());
    assert!(matches!(t.slot(3), Some((11, _))));
    t.delete(1);
    assert!(t.insert(11, chars("c")).is_empty());
    assert!(matches!(t.slot(1), None));
    assert_eq!(t.get(11), Some(&chars("c")));
    t.delete(11);
    assert!(t.get(11).is_none());
    assert_eq!(t.size(), 0);
}
