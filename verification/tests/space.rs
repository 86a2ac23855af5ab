//! Free space and allocation.

use luks_core::error::LuksError;
use luks_core::fs::btrfs::chunk::{BLOCK_GROUP_DATA, BLOCK_GROUP_METADATA};
use luks_core::fs::btrfs::write::extent_tree::BlockGroupItem;
use luks_core::fs::btrfs::write::space::{
    bg_holds_data, BlockGroupFreeSpace, FreeRange, FreeSpaceMap,
};

#[test]
fn bg_holds_data_rejects_metadata_only_block_group() {
    // A METADATA-only block group must not be treated as DATA-capable.
    assert!(!bg_holds_data(BLOCK_GROUP_METADATA));

    // DATA and MIXED groups hold data.
    assert!(bg_holds_data(BLOCK_GROUP_DATA));
    assert!(bg_holds_data(BLOCK_GROUP_DATA | BLOCK_GROUP_METADATA));

    // An expression that asks whether either bit is set takes a metadata-only
    // group for one that holds data.
    let either_bit = |flags: u64| {
        (flags & BLOCK_GROUP_DATA != 0)
            || (flags & (BLOCK_GROUP_DATA | BLOCK_GROUP_METADATA) != 0)
    };
    assert!(
        either_bit(BLOCK_GROUP_METADATA),
        "either bit must take a METADATA-only group for data-capable"
    );
}

fn create_test_data_bg(start: u64, length: u64, free_ranges: Vec<FreeRange>) -> BlockGroupFreeSpace {
    let total_free: u64 = free_ranges.iter().map(|r| r.length).sum();
    BlockGroupFreeSpace {
        block_group: BlockGroupItem {
            start,
            length,
            used: length - total_free,
            chunk_objectid: 256,
            flags: BLOCK_GROUP_DATA,
        },
        allocated_extents: Vec::new(),
        free_ranges,
        pinned_freed: Vec::new(),
        excluded_ranges: Vec::new(),
        total_allocated_bytes: length - total_free,
        total_free_bytes: total_free,
    }
}

#[test]
fn allocate_data_chunk_picks_largest_available_range() {
    let bg = create_test_data_bg(
        0,
        1_000_000,
        vec![
            FreeRange {
                start: 16_384,
                length: 16_384,
            },
            FreeRange {
                start: 65_536,
                length: 65_536,
            },
            FreeRange {
                start: 262_144,
                length: 32_768,
            },
        ],
    );
    let mut map = FreeSpaceMap {
        block_groups: vec![bg],
    };

    // 1. Request 48KB: should allocate from 64KB range at 65,536
    let (bytenr, len) = map.allocate_data_chunk(49_152, 4096).unwrap();
    assert_eq!(bytenr, 65_536);
    assert_eq!(len, 49_152);
    assert_eq!(map.block_groups[0].total_free_bytes, 114_688 - 49_152);

    // 2. Request 48KB: largest remaining is 32KB at 262,144, so it returns 32KB
    let (bytenr, len) = map.allocate_data_chunk(49_152, 4096).unwrap();
    assert_eq!(bytenr, 262_144);
    assert_eq!(len, 32_768);

    // 3. Request 32KB: remaining ranges are two 16KB ranges (16,384 and 114,688).
    // It should return 16KB from the first one.
    let (bytenr, len) = map.allocate_data_chunk(32_768, 4096).unwrap();
    assert_eq!(bytenr, 16_384);
    assert_eq!(len, 16_384);

    // 4. Request remaining 16KB
    let (bytenr, len) = map.allocate_data_chunk(16_384, 4096).unwrap();
    assert_eq!(bytenr, 114_688);
    assert_eq!(len, 16_384);

    // 5. Total free space exhausted
    assert_eq!(map.block_groups[0].total_free_bytes, 0);
    assert!(map.block_groups[0].free_ranges.is_empty());
    assert!(matches!(
        map.allocate_data_chunk(4096, 4096).unwrap_err(),
        LuksError::FilesystemFull
    ));
}

#[test]
fn free_data_and_merging() {
    let bg = create_test_data_bg(0, 1_000_000, Vec::new());
    let mut map = FreeSpaceMap {
        block_groups: vec![bg],
    };

    map.free_data(10_000, 4096).unwrap();
    assert_eq!(
        map.block_groups[0].pinned_freed,
        vec![FreeRange {
            start: 10_000,
            length: 4096
        }]
    );

    // Adjacent free should merge
    map.free_data(14_096, 4096).unwrap();
    assert_eq!(
        map.block_groups[0].pinned_freed,
        vec![FreeRange {
            start: 10_000,
            length: 8192
        }]
    );

    // Disjoint free
    map.free_data(30_000, 4096).unwrap();
    assert_eq!(
        map.block_groups[0].pinned_freed,
        vec![
            FreeRange {
                start: 10_000,
                length: 8192
            },
            FreeRange {
                start: 30_000,
                length: 4096
            }
        ]
    );

    // Bridge or prepend to second range
    map.free_data(25_904, 4096).unwrap();
    assert_eq!(
        map.block_groups[0].pinned_freed,
        vec![
            FreeRange {
                start: 10_000,
                length: 8192
            },
            FreeRange {
                start: 25_904,
                length: 8192
            }
        ]
    );
}

#[test]
fn allocate_data_chunk_unaligned_free_range() {
    let bg = create_test_data_bg(
        0,
        1_000_000,
        vec![FreeRange {
            start: 4000,
            length: 10_000, // 4000..14000
        }],
    );
    let mut map = FreeSpaceMap {
        block_groups: vec![bg],
    };

    // Aligned start at 4096, usable is 8192 (4096..12288)
    let (bytenr, len) = map.allocate_data_chunk(4096, 4096).unwrap();
    assert_eq!(bytenr, 4096);
    assert_eq!(len, 4096);

    // Before fragment 4000..4096 (len 96) and after fragment 8192..14000 (len 5808)
    assert_eq!(
        map.block_groups[0].free_ranges,
        vec![
            FreeRange {
                start: 4000,
                length: 96
            },
            FreeRange {
                start: 8192,
                length: 5808
            },
        ]
    );
}

#[test]
fn test_exclude_ranges_split_and_trim() {
    let bg = create_test_data_bg(
        0,
        1_000_000,
        vec![FreeRange {
            start: 10_000,
            length: 20_000, // 10_000..30_000
        }],
    );
    let mut map = FreeSpaceMap {
        block_groups: vec![bg],
    };

    // Exclude 18_000..22_000 (split) and 28_000..35_000 (trim end)
    map.exclude_ranges(&[18_000..22_000, 28_000..35_000]);

    assert_eq!(
        map.block_groups[0].free_ranges,
        vec![
            FreeRange {
                start: 10_000,
                length: 8000, // 10_000..18_000
            },
            FreeRange {
                start: 22_000,
                length: 6000, // 22_000..28_000
            },
        ]
    );
    assert_eq!(map.block_groups[0].total_free_bytes, 14_000);
    assert_eq!(
        map.block_groups[0].excluded_ranges,
        vec![
            FreeRange {
                start: 18_000,
                length: 4000,
            },
            FreeRange {
                start: 28_000,
                length: 2000, // clamped to free range end 30_000
            },
        ]
    );

    // Verify emit_free_space_tree_items merges them back cleanly to 10_000..30_000
    let items = map.emit_free_space_tree_items();
    // 1 info item + 1 extent item
    assert_eq!(items.len(), 2);
    assert_eq!(items[1].key.objectid, 10_000);
    assert_eq!(items[1].key.offset, 20_000);
}

#[test]
fn test_exclude_ranges_prevents_allocation_on_mirror() {
    let mut bg = create_test_data_bg(
        30_000_000,
        40_000_000,
        vec![FreeRange {
            start: 58_000_000,
            length: 2_000_000, // 58_000_000..60_000_000
        }],
    );
    bg.block_group.flags = BLOCK_GROUP_METADATA;

    let mut map = FreeSpaceMap {
        block_groups: vec![bg],
    };

    // Exclude Mirror 1 range at 58_720_256..58_785_792 (64 KiB)
    map.exclude_ranges(&[58_720_256..58_785_792]);

    // Range before mirror is 58_000_000..58_720_256 (720_256 bytes)
    // Range after mirror is 58_785_792..60_000_000 (1_214_208 bytes)
    assert_eq!(
        map.block_groups[0].free_ranges,
        vec![
            FreeRange {
                start: 58_000_000,
                length: 720_256,
            },
            FreeRange {
                start: 58_785_792,
                length: 1_214_208,
            },
        ]
    );

    // Exhaust the first range with metadata allocations
    while let Ok(bytenr) = map.allocate_metadata(16384) {
        assert!(
            bytenr + 16384 <= 58_720_256 || bytenr >= 58_785_792,
            "allocation {bytenr:#x} must not overlap excluded mirror [58720256, 58785792)"
        );
    }
}

/// On a mixed block group, a reserved data run must never be handed out by
/// `allocate_metadata`.
#[test]
fn test_exclude_ranges_prevents_metadata_landing_in_reserved_data_run_on_mixed_bg() {
    let mut bg = create_test_data_bg(
        10_000_000,
        20_000_000,
        vec![FreeRange {
            start: 10_000_000,
            length: 20_000_000, // 10_000_000..30_000_000
        }],
    );
    bg.block_group.flags = BLOCK_GROUP_DATA | BLOCK_GROUP_METADATA;

    let mut map = FreeSpaceMap {
        block_groups: vec![bg],
    };

    // A writer has already chosen (but not committed) a 1 MiB data run
    // in the middle of the free range.
    let reserved_start = 15_000_000u64;
    let reserved_len = 1_048_576u64;
    map.exclude_ranges(&[reserved_start..reserved_start + reserved_len]);

    assert_eq!(
        map.block_groups[0].free_ranges,
        vec![
            FreeRange {
                start: 10_000_000,
                length: reserved_start - 10_000_000,
            },
            FreeRange {
                start: reserved_start + reserved_len,
                length: 30_000_000 - (reserved_start + reserved_len),
            },
        ]
    );

    // Metadata allocation must never touch the reserved run, all the
    // way to exhaustion of what remains.
    while let Ok(bytenr) = map.allocate_metadata(4096) {
        assert!(
            bytenr + 4096 <= reserved_start || bytenr >= reserved_start + reserved_len,
            "metadata allocation {bytenr:#x} must not land inside the writer's \
             reserved data run [{reserved_start:#x}, {:#x})",
            reserved_start + reserved_len
        );
    }
}

/// A legitimate free takes exactly the freed length off `used`.
#[test]
fn free_data_legitimate_free_succeeds_and_decrements_used() {
    let bg = create_test_data_bg(0, 1_000_000, Vec::new()); // used = 1_000_000
    let mut map = FreeSpaceMap {
        block_groups: vec![bg],
    };

    assert_eq!(map.block_groups[0].block_group.used, 1_000_000);
    map.free_data(10_000, 4096).expect("legitimate free must succeed");
    assert_eq!(map.block_groups[0].block_group.used, 1_000_000 - 4096);
    assert_eq!(
        map.block_groups[0].pinned_freed,
        vec![FreeRange {
            start: 10_000,
            length: 4096
        }]
    );
}

/// A range that overflows `u64` is refused.
#[test]
fn free_data_rejects_range_overflow() {
    let bg = create_test_data_bg(0, 1_000_000, Vec::new());
    let mut map = FreeSpaceMap {
        block_groups: vec![bg],
    };

    let err = map.free_data(u64::MAX - 10, 100).unwrap_err();
    assert!(matches!(err, LuksError::CorruptFs(_)));
}

/// A range in no block group is refused.
#[test]
fn free_data_rejects_range_outside_any_block_group() {
    let bg = create_test_data_bg(0, 1_000_000, Vec::new());
    let mut map = FreeSpaceMap {
        block_groups: vec![bg],
    };

    let err = map.free_data(5_000_000, 4096).unwrap_err();
    assert!(matches!(err, LuksError::CorruptFs(_)));
}

/// Freeing more than `used` is refused.
#[test]
fn free_data_rejects_freeing_more_than_used() {
    let mut bg = create_test_data_bg(0, 1_000_000, Vec::new());
    bg.block_group.used = 2048; // less than the range we'll try to free
    let mut map = FreeSpaceMap {
        block_groups: vec![bg],
    };

    let err = map.free_data(10_000, 4096).unwrap_err();
    assert!(matches!(err, LuksError::CorruptFs(_)));
    // used must be left untouched on rejection, not partially decremented.
    assert_eq!(map.block_groups[0].block_group.used, 2048);
}

/// Freeing a range twice is refused.
#[test]
fn free_data_rejects_double_free_overlap() {
    let bg = create_test_data_bg(0, 1_000_000, Vec::new());
    let mut map = FreeSpaceMap {
        block_groups: vec![bg],
    };

    map.free_data(10_000, 4096).expect("first free must succeed");
    // Overlaps [10_000, 14_096) at the tail end.
    let err = map.free_data(12_000, 4096).unwrap_err();
    assert!(matches!(err, LuksError::CorruptFs(_)));

    // Exact duplicate free is also an overlap.
    let err = map.free_data(10_000, 4096).unwrap_err();
    assert!(matches!(err, LuksError::CorruptFs(_)));
}

#[test]
fn test_mark_allocated() {
    let bg = create_test_data_bg(
        10_000_000,
        20_000_000,
        vec![
            FreeRange {
                start: 10_000_000,
                length: 1_000_000,
            },
            FreeRange {
                start: 15_000_000,
                length: 2_000_000,
            },
        ],
    );
    let mut map = FreeSpaceMap {
        block_groups: vec![bg],
    };

    // Initially: length = 20M, free = 3M, allocated = 17M
    assert_eq!(map.block_groups[0].total_allocated_bytes, 17_000_000);
    assert_eq!(map.block_groups[0].total_free_bytes, 3_000_000);

    // 1. Carve from middle of second range (16_000_000..16_500_000)
    map.mark_allocated(16_000_000, 500_000).expect("mark allocated middle");
    assert_eq!(
        map.block_groups[0].free_ranges,
        vec![
            FreeRange {
                start: 10_000_000,
                length: 1_000_000,
            },
            FreeRange {
                start: 15_000_000,
                length: 1_000_000,
            },
            FreeRange {
                start: 16_500_000,
                length: 500_000,
            },
        ]
    );
    assert_eq!(map.block_groups[0].total_allocated_bytes, 17_500_000);
    assert_eq!(map.block_groups[0].total_free_bytes, 2_500_000);
    assert_eq!(map.block_groups[0].block_group.used, 17_500_000);

    // 2. Carve entire first range (10_000_000..11_000_000)
    map.mark_allocated(10_000_000, 1_000_000).expect("mark allocated exact");
    assert_eq!(
        map.block_groups[0].free_ranges,
        vec![
            FreeRange {
                start: 15_000_000,
                length: 1_000_000,
            },
            FreeRange {
                start: 16_500_000,
                length: 500_000,
            },
        ]
    );
    assert_eq!(map.block_groups[0].total_allocated_bytes, 18_500_000);
    assert_eq!(map.block_groups[0].total_free_bytes, 1_500_000);

    // 3. Mark already allocated range -> error
    assert!(map.mark_allocated(10_000_000, 1_000_000).is_err());
    // 4. Mark out of bounds range -> error
    assert!(map.mark_allocated(50_000_000, 1_000_000).is_err());
}
