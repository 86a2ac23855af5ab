//! Sets of intervals.

use luks_core::fs::btrfs::write::interval_set::IntervalSet;

#[test]
fn test_interval_set_insert_and_merge() {
    let mut set = IntervalSet::new();
    assert!(set.insert(100, 50)); // [100, 150)
    assert_eq!(set.intervals(), &[(100, 150)]);

    assert!(set.insert(200, 50)); // [200, 250)
    assert_eq!(set.intervals(), &[(100, 150), (200, 250)]);

    // Merge adjacent touching interval [150, 200)
    assert!(set.insert(150, 50));
    assert_eq!(set.intervals(), &[(100, 250)]);
}

#[test]
fn test_interval_set_detects_overlap() {
    let mut set = IntervalSet::new();
    assert!(set.insert(1000, 500)); // [1000, 1500)

    // Exact match overlap
    assert!(!set.insert(1000, 500));

    // Partial overlap left
    assert!(!set.insert(800, 300)); // [800, 1100) overlaps with [1000, 1500)

    // Partial overlap right
    assert!(!set.insert(1400, 200)); // [1400, 1600) overlaps with [1000, 1500)

    // Enclosed overlap
    assert!(!set.insert(1100, 100)); // [1100, 1200)

    // Enclosing overlap
    assert!(!set.insert(500, 2000)); // [500, 2500)

    // Disjoint does not overlap
    assert!(set.insert(500, 400)); // [500, 900)
    assert!(set.insert(1600, 400)); // [1600, 2000)
    assert_eq!(set.intervals(), &[(500, 900), (1000, 1500), (1600, 2000)]);
}

#[test]
fn test_interval_set_remove() {
    let mut set = IntervalSet::new();
    set.insert(100, 200); // [100, 300)
    set.remove(150, 50); // remove [150, 200)
    assert_eq!(set.intervals(), &[(100, 150), (200, 300)]);
}
