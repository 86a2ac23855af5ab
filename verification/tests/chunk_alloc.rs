//! Allocating data chunks.

use luks_core::error::LuksError;
use luks_core::fs::btrfs::chunk::{Chunk, ChunkMap, Stripe};
use luks_core::fs::btrfs::write::chunk_alloc::{
    decide_data_chunk_size, find_free_dev_extent, next_logical,
};

const MIB: u64 = 1024 * 1024;
const GIB: u64 = 1024 * 1024 * 1024;

#[test]
fn test_decide_data_chunk_size_nine_verified_sizes() {

    assert_eq!(decide_data_chunk_size(3 * GIB), 320 * MIB);
    assert_eq!(decide_data_chunk_size(3 * GIB), 335_544_320);

    assert_eq!(decide_data_chunk_size(4 * GIB), 416 * MIB);
    assert_eq!(decide_data_chunk_size(4 * GIB), 436_207_616);

    assert_eq!(decide_data_chunk_size(5 * GIB), 512 * MIB);
    assert_eq!(decide_data_chunk_size(5 * GIB), 536_870_912);

    assert_eq!(decide_data_chunk_size(6 * GIB), 624 * MIB);
    assert_eq!(decide_data_chunk_size(6 * GIB), 654_311_424);

    assert_eq!(decide_data_chunk_size(7 * GIB), 720 * MIB);
    assert_eq!(decide_data_chunk_size(7 * GIB), 754_974_720);

    assert_eq!(decide_data_chunk_size(8 * GIB), 832 * MIB);
    assert_eq!(decide_data_chunk_size(8 * GIB), 872_415_232);

    assert_eq!(decide_data_chunk_size(9 * GIB), 928 * MIB);
    assert_eq!(decide_data_chunk_size(9 * GIB), 973_078_528);

    assert_eq!(decide_data_chunk_size(12 * GIB), 1024 * MIB);
    assert_eq!(decide_data_chunk_size(12 * GIB), 1_073_741_824);

    assert_eq!(decide_data_chunk_size(16 * GIB), 1024 * MIB);
    assert_eq!(decide_data_chunk_size(32 * GIB), 1024 * MIB);
    assert_eq!(decide_data_chunk_size(64 * GIB), 1024 * MIB);
}

#[test]
fn test_next_logical_empty_and_populated() {
    let empty_map = ChunkMap::default();
    assert_eq!(next_logical(&empty_map), 0);

    let mut map = ChunkMap::default();
    let chunk1 = Chunk {
        logical: 4_194_304,
        length: 8_388_608,
        owner: 2,
        stripe_len: 65536,
        chunk_type: 1,
        io_align: 65536,
        io_width: 65536,
        sector_size: 4096,
        sub_stripes: 1,
        stripes: vec![Stripe::new(1, 1_048_576, [0u8; 16])],
    };
    map.insert(chunk1);
    assert_eq!(next_logical(&map), 4_194_304 + 8_388_608);

    let chunk2 = Chunk {
        logical: 298_844_160,
        length: 436_207_616,
        owner: 2,
        stripe_len: 65536,
        chunk_type: 1,
        io_align: 65536,
        io_width: 65536,
        sector_size: 4096,
        sub_stripes: 1,
        stripes: vec![Stripe::new(1, 13_631_488, [0u8; 16])],
    };
    map.insert(chunk2);
    assert_eq!(next_logical(&map), 298_844_160 + 436_207_616);
}

#[test]
fn test_find_free_dev_extent_first_fit_and_fallback() {
    let total_dev = 1000 * MIB;

    // 1. Empty device -> starts at 1 MiB
    let (off, len) = find_free_dev_extent(&[], total_dev, 400 * MIB, 64 * MIB).unwrap();
    assert_eq!(off, 1 * MIB);
    assert_eq!(len, 400 * MIB);

    // 2. Existing extent at 1MB..101MB -> next hole at 101MB
    let extents = vec![(1 * MIB, 100 * MIB)];
    let (off, len) = find_free_dev_extent(&extents, total_dev, 400 * MIB, 64 * MIB).unwrap();
    assert_eq!(off, 101 * MIB);
    assert_eq!(len, 400 * MIB);

    // 3. First-fit choice:
    // Gap 1: 1MB..11MB (10MB) - too small for 50MB
    // Gap 2: 61MB..161MB (100MB) - fits 50MB
    // Gap 3: 201MB..501MB (300MB) - larger, but second
    let extents_multi = vec![
        (11 * MIB, 50 * MIB),
        (161 * MIB, 40 * MIB),
    ];
    let (off, len) = find_free_dev_extent(&extents_multi, total_dev, 50 * MIB, 10 * MIB).unwrap();
    assert_eq!(off, 61 * MIB); // First fit selected!
    assert_eq!(len, 50 * MIB);

    // 4. Fallback to largest hole when requested size does not fit:
    // Request 500MB, but available holes are 10MB, 100MB, 499MB.
    // Largest hole (201MB..700MB, total_dev=700MB) is 499MB.
    let total_dev_small = 700 * MIB;
    let (off, len) = find_free_dev_extent(&extents_multi, total_dev_small, 500 * MIB, 64 * MIB).unwrap();
    assert_eq!(off, 201 * MIB);
    assert_eq!(len, 499 * MIB);

    // 5. Filesystem full when largest hole is below min_stripe_size
    let extents_tight = vec![(1 * MIB, 995 * MIB)];
    let res = find_free_dev_extent(&extents_tight, 1000 * MIB, 50 * MIB, 10 * MIB);
    assert!(matches!(res, Err(LuksError::FilesystemFull)));
}
