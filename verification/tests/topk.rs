use spectra::models::FileRecord;
use spectra::topk::BoundedTopK;

fn rec(path: &str, size: u64) -> FileRecord {
    FileRecord { path: path.to_string(), size_bytes: size }
}

#[test]
fn test_tracker_keeps_largest() {
    let mut t = BoundedTopK::new(2);
    t.offer(rec("a", 5));
    t.offer(rec("b", 3));
    t.offer(rec("c", 10));
    let out = t.drain_sorted();
    assert_eq!(out.len(), 2);
    assert_eq!(out[0].size_bytes, 10);
    assert_eq!(out[0].path, "c".to_string());
    assert_eq!(out[1].size_bytes, 5);
    assert_eq!(out[1].path, "a".to_string());
}

#[test]
fn test_tracker_zero_capacity_retains_nothing() {
    let mut t = BoundedTopK::new(0);
    t.offer(rec("a", 5));
    t.offer(rec("b", 100));
    assert_eq!(t.len(), 0);
    let out = t.drain_sorted();
    assert_eq!(out.len(), 0);
}

#[test]
fn test_tracker_never_exceeds_capacity() {
    let mut t = BoundedTopK::new(3);
    let sizes = [9u64, 1, 7, 3, 8, 2, 6];
    for (i, s) in sizes.iter().enumerate() {
        t.offer(rec(&format!("f{}", i), *s));
        assert!(t.len() <= 3);
    }
    let out = t.drain_sorted();
    assert_eq!(out.len(), 3);
    assert_eq!(out[0].size_bytes, 9);
    assert_eq!(out[1].size_bytes, 8);
    assert_eq!(out[2].size_bytes, 7);
}

#[test]
fn test_tracker_capacity_above_count_keeps_all() {
    let mut t = BoundedTopK::new(10);
    t.offer(rec("a", 1));
    t.offer(rec("b", 3));
    t.offer(rec("c", 2));
    let out = t.drain_sorted();
    assert_eq!(out.len(), 3);
    assert_eq!(out[0].size_bytes, 3);
    assert_eq!(out[1].size_bytes, 2);
    assert_eq!(out[2].size_bytes, 1);
}

#[test]
fn test_tracker_tie_retains_earlier_record() {
    // at capacity, an equal-sized newcomer is discarded: eviction asks
    // for a strictly larger size
    let mut t = BoundedTopK::new(1);
    t.offer(rec("first", 5));
    t.offer(rec("second", 5));
    let out = t.drain_sorted();
    assert_eq!(out.len(), 1);
    assert_eq!(out[0].path, "first".to_string());
}
