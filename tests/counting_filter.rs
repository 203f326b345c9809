use algs::counting_bloom_filter::{run, CountingBloomFilter};

#[test]
fn counting_filter_demo_runs() {
    run();
}

#[test]
fn counting_filter_insert_remove() {
    let mut f = CountingBloomFilter::new(100);
    assert_eq!(f.get_hashes(95), vec![95, 5]);
    for item in [1usize, 2, 3, 4, 5, 6, 15, 16, 35, 36] {
        f.insert(item);
    }
    for item in [1usize, 2, 3, 4, 5, 6, 15, 16, 35, 36, 25, 26] {
        assert!(f.contains(item));
    }
    assert!(!f.contains(50));
    f.remove(35);
    f.remove(36);
    for item in [35usize, 36, 25, 26] {
        assert!(!f.contains(item));
    }
    assert!(f.contains(15));
}
