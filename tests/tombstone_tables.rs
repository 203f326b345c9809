use algs::dhts_hash_table::DoubleHashingTombstoneHashTable;
use algs::lpts_hash_table::LinearProbingTombstoneHashTable;
use algs::tombstone::TombstoneSlot;

fn chars(s: &str) -> Vec<char> {
    s.chars().collect()
}

const NAMES: [&str; 8] = ["one", "two", "three", "four", "five", "six", "seven", "eight"];

#[test]
fn lpts_scenario_with_tombstone_reuse() {
    let mut t = LinearProbingTombstoneHashTable::new(10).unwrap();
    for k in 1..=8usize {
        t.insert(k, chars(NAMES[k - 1]));
    }
    t.insert(11, chars("eleven"));
    assert_eq!(t.capacity(), 10);
    assert_eq!(t.size(), 9);
    assert_eq!(t.get(11), Some(&chars("eleven")));
    assert!(matches!(t.slot(9), TombstoneSlot::Occupied(11, _)));

    t.delete(4);
    assert!(t.get(4).is_none());
    assert_eq!(t.size(), 8);
    assert!(matches!(t.slot(4), TombstoneSlot::Tombstone));

    t.insert(11, chars("eleven2"));
    assert_eq!(t.size(), 8);
    match t.slot(4) {
        TombstoneSlot::Occupied(k, v) => {
            assert_eq!(*k, 11);
            assert_eq!(*v, chars("eleven2"));
        }
        _ => panic!("key 11 should have moved into the tombstone"),
    }
    assert!(matches!(t.slot(9), TombstoneSlot::Tombstone));
    assert_eq!(t.get(11), Some(&chars("eleven2")));

    t.insert(12, chars("twelve"));
    assert_eq!(t.size(), 9);
    assert!(matches!(t.slot(9), TombstoneSlot::Occupied(12, _)));

    t.insert(9, chars("nine"));
    t.insert(10, chars("ten"));
    assert_eq!(t.capacity(), 20);
    assert_eq!(t.size(), 11);
    for i in 0..20 {
        assert!(!matches!(t.slot(i), TombstoneSlot::Tombstone));
    }
    for k in [1usize, 2, 3, 5, 6, 7, 8, 9, 10, 11, 12] {
        assert!(t.get(k).is_some());
    }
    assert!(t.get(4).is_none());
}

#[test]
fn dhts_scenario() {
    let mut t = DoubleHashingTombstoneHashTable::new(10).unwrap();
    for k in 1..=8usize {
        t.insert(k, chars(NAMES[k - 1]));
    }
    t.insert(11, chars("eleven"));
    assert_eq!(t.capacity(), 10);
    assert_eq!(t.size(), 9);
    for k in 1..=8usize {
        assert_eq!(t.get(k), Some(&chars(NAMES[k - 1])));
    }
    assert_eq!(t.get(11), Some(&chars("eleven")));

    t.delete(4);
    assert!(t.get(4).is_none());
    assert_eq!(t.size(), 8);

    t.insert(11, chars("eleven"));
    assert_eq!(t.size(), 8);
    assert!(matches!(t.slot(4), TombstoneSlot::Occupied(11, _)));

    t.insert(12, chars("twelve"));
    assert_eq!(t.size(), 9);

    t.insert(9, chars("nine"));
    t.insert(10, chars("ten"));
    assert_eq!(t.capacity(), 20);
    assert_eq!(t.size(), 11);
}

#[test]
fn dhts_probe_formula() {
    let t = DoubleHashingTombstoneHashTable::new(10).unwrap();
    assert_eq!(t.get_secondary_hash(7), 1);
    assert_eq!(t.get_preferred_index(27), 7);
    assert_eq!(t.get_probe_index(7, 0, 27), 7);
    assert_eq!(t.get_probe_index(7, 2, 27), 9);
    assert_eq!(t.get_probe_index(7, 4, 27), 1);
}

#[test]
fn tombstone_tables_reject_zero_capacity() {
    assert!(LinearProbingTombstoneHashTable::new(0).is_none());
    assert!(DoubleHashingTombstoneHashTable::new(0).is_none());
    assert!(LinearProbingTombstoneHashTable::new(1).is_some());
}

#[test]
fn lpts_round_trip_unique_keys() {
    let mut t = LinearProbingTombstoneHashTable::new(3).unwrap();
    for k in 0..50usize {
        t.insert(k * 7, vec!['v', char::from(b'a' + (k % 26) as u8)]);
    }
    for k in 0..50usize {
        assert_eq!(t.get(k * 7), Some(&vec!['v', char::from(b'a' + (k % 26) as u8)]));
    }
    assert_eq!(t.size(), 50);
    assert!(t.size() <= t.capacity());
    assert!(t.get(1).is_none());
}

#[test]
fn lpts_overwrite_keeps_size() {
    let mut t = LinearProbingTombstoneHashTable::new(4).unwrap();
    t.insert(5, chars("a"));
    t.insert(5, chars("b"));
    assert_eq!(t.size(), 1);
    assert_eq!(t.get(5), Some(&chars("b")));
}

#[test]
fn lpts_delete_removes_only_target() {
    let mut t = LinearProbingTombstoneHashTable::new(8).unwrap();
    for k in [3usize, 11, 19, 4, 12] {
        t.insert(k, vec![char::from(b'0' + (k % 10) as u8)]);
    }
    t.delete(11);
    assert!(t.get(11).is_none());
    for k in [3usize, 19, 4, 12] {
        assert_eq!(t.get(k), Some(&vec![char::from(b'0' + (k % 10) as u8)]));
    }
    t.delete(99);
    assert_eq!(t.size(), 4);
}

#[test]
fn dhts_delete_removes_only_target() {
    let mut t = DoubleHashingTombstoneHashTable::new(8).unwrap();
    for k in [3usize, 11, 19, 4, 12] {
        t.insert(k, vec![char::from(b'0' + (k % 10) as u8)]);
    }
    t.delete(19);
    assert!(t.get(19).is_none());
    for k in [3usize, 11, 4, 12] {
        assert_eq!(t.get(k), Some(&vec![char::from(b'0' + (k % 10) as u8)]));
    }
    assert_eq!(t.size(), 4);
}

#[test]
fn lpts_resize_keeps_entries_and_drops_tombstones() {
    let mut t = LinearProbingTombstoneHashTable::new(6).unwrap();
    for k in 0..6usize {
        t.insert(k, vec!['x'; k + 1]);
    }
    t.delete(2);
    t.delete(3);
    assert!(!t.resize_to(5));
    assert_eq!(t.capacity(), 6);
    assert!(t.resize_to(6));
    assert_eq!(t.capacity(), 6);
    t.resize();
    assert_eq!(t.capacity(), 12);
    for i in 0..12 {
        assert!(!matches!(t.slot(i), TombstoneSlot::Tombstone));
    }
    for k in [0usize, 1, 4, 5] {
        assert_eq!(t.get(k), Some(&vec!['x'; k + 1]));
    }
    assert!(t.get(2).is_none());
    assert_eq!(t.size(), 4);
}

#[test]
fn dhts_capacity_doubles_per_resize() {
    let mut t = DoubleHashingTombstoneHashTable::new(5).unwrap();
    t.insert(1, chars("one"));
    t.resize();
    t.resize();
    t.resize();
    assert_eq!(t.capacity(), 40);
    assert_eq!(t.get(1), Some(&chars("one")));
}

#[test]
fn lpts_reuses_tombstone_when_no_slot_is_empty() {
    let mut t = LinearProbingTombstoneHashTable::new(2).unwrap();
    t.insert(1, chars("a"));
    t.insert(2, chars("b"));
    t.delete(1);
    t.insert(3, chars("c"));
    assert_eq!(t.capacity(), 2);
    assert_eq!(t.get(3), Some(&chars("c")));
    assert_eq!(t.get(2), Some(&chars("b")));
    assert_eq!(t.size(), 2);
    assert!(matches!(t.slot(1), TombstoneSlot::Occupied(3, _)));
}

#[test]
fn lpts_insert_after_deletes_keeps_every_entry() {
    let mut t = LinearProbingTombstoneHashTable::new(10).unwrap();
    for k in 0..10usize {
        t.insert(k, vec![char::from(b'a' + k as u8)]);
    }
    t.delete(0);
    t.insert(10, chars("ten"));
    assert_eq!(t.get(10), Some(&chars("ten")));
    for k in 1..10usize {
        assert_eq!(t.get(k), Some(&vec![char::from(b'a' + k as u8)]));
    }
    assert!(t.get(0).is_none());
    assert_eq!(t.size(), 10);
    assert_eq!(t.capacity(), 10);
}

#[test]
fn dhts_reuses_tombstone_when_no_slot_is_empty() {
    let mut t = DoubleHashingTombstoneHashTable::new(2).unwrap();
    t.insert(1, chars("a"));
    t.insert(2, chars("b"));
    t.delete(1);
    t.insert(3, chars("c"));
    assert_eq!(t.capacity(), 2);
    assert_eq!(t.get(3), Some(&chars("c")));
    assert_eq!(t.get(2), Some(&chars("b")));
    assert_eq!(t.size(), 2);
}

#[test]
fn dhts_probe_formula_from_any_start() {
    let t = DoubleHashingTombstoneHashTable::new(10).unwrap();
    assert_eq!(t.get_probe_index(3, 0, 27), 3);
    assert_eq!(t.get_probe_index(3, 2, 27), 5);
    assert_eq!(t.get_probe_index(9, 12, 27), 1);
}
