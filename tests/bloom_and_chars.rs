use algs::bloom_filter::{run, BloomFilter};
use algs::common_chars::common_chars;

fn words(list: &[&str]) -> Vec<Vec<char>> {
    list.iter().map(|s| s.chars().collect()).collect()
}

#[test]
fn bloom_filter_demo_runs() {
    run();
}

#[test]
fn bloom_filter_sets_two_bits_per_item() {
    let mut f = BloomFilter::new(100);
    assert_eq!(f.get_hashes(95), vec![95, 5]);
    assert!(!f.contains(7));
    f.insert(7);
    assert!(f.contains(7));
    assert!(!f.contains(17));
    assert!(!f.contains(8));
    f.insert(27);
    assert!(f.contains(17));
}

#[test]
fn bloom_filter_single_bit() {
    let mut f = BloomFilter::new(1);
    assert!(!f.contains(0));
    f.insert(5);
    assert!(f.contains(0));
}

#[test]
fn common_chars_first_example() {
    let (common, n) = common_chars(&words(&["abcdefga", "xvxaa", "bcdefa"]));
    assert_eq!(common, vec!['a']);
    assert_eq!(n, 1);
}

#[test]
fn common_chars_second_example() {
    let (common, n) = common_chars(&words(&["abcdefgw", "abcuvw", "xvwcba"]));
    assert_eq!(common, vec!['a', 'b', 'c', 'w']);
    assert_eq!(n, 4);
}

#[test]
fn common_chars_single_string_dedups() {
    let (common, n) = common_chars(&words(&["abracadabra"]));
    assert_eq!(common, vec!['a', 'b', 'r', 'c', 'd']);
    assert_eq!(n, 5);
}

#[test]
fn common_chars_none_shared() {
    let (common, n) = common_chars(&words(&["abc", "xyz"]));
    assert!(common.is_empty());
    assert_eq!(n, 0);
}
