//! What is left of checksums when data is freed.

use luks_core::fs::btrfs::write::csum_delete::compute_surviving_intervals;

#[test]
fn test_compute_surviving_intervals_full_removal() {
    let freed = [(1000, 2000)];
    let surviving = compute_surviving_intervals(1000, 2000, &freed);
    assert!(surviving.is_empty(), "exact match must leave no surviving intervals");

    let subsuming_freed = [(500, 2500)];
    let surviving2 = compute_surviving_intervals(1000, 2000, &subsuming_freed);
    assert!(surviving2.is_empty(), "subsuming free must leave no surviving intervals");
}

#[test]
fn test_compute_surviving_intervals_tail_truncation() {
    let freed = [(1500, 2500)];
    let surviving = compute_surviving_intervals(1000, 2000, &freed);
    assert_eq!(surviving.len(), 1);
    assert_eq!(surviving[0], (1000, 1500));
}

#[test]
fn test_compute_surviving_intervals_head_truncation() {
    let freed = [(500, 1500)];
    let surviving = compute_surviving_intervals(1000, 2000, &freed);
    assert_eq!(surviving.len(), 1);
    assert_eq!(surviving[0], (1500, 2000));
}

#[test]
fn test_compute_surviving_intervals_middle_hole_punch() {
    let freed = [(1400, 1600)];
    let surviving = compute_surviving_intervals(1000, 2000, &freed);
    assert_eq!(surviving.len(), 2);
    assert_eq!(surviving[0], (1000, 1400));
    assert_eq!(surviving[1], (1600, 2000));
}

#[test]
fn test_compute_surviving_intervals_multiple_holes() {
    let freed = [(1200, 1400), (1600, 1800)];
    let surviving = compute_surviving_intervals(1000, 2000, &freed);
    assert_eq!(surviving.len(), 3);
    assert_eq!(surviving[0], (1000, 1200));
    assert_eq!(surviving[1], (1400, 1600));
    assert_eq!(surviving[2], (1800, 2000));
}

#[test]
fn test_compute_surviving_intervals_no_overlap() {
    let freed = [(100, 500), (2500, 3000)];
    let surviving = compute_surviving_intervals(1000, 2000, &freed);
    assert_eq!(surviving.len(), 1);
    assert_eq!(surviving[0], (1000, 2000));
}
