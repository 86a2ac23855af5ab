//! Superblock mirrors are kept clear.

use luks_core::fs::btrfs::chunk::{
    Chunk, ChunkMap, Stripe, BLOCK_GROUP_DATA, BLOCK_GROUP_DUP, BLOCK_GROUP_METADATA,
};
use luks_core::fs::btrfs::write::exclude::{compute_sb_exclusions, SB_PROTECT_LEN};

#[test]
fn test_4gib_metadata_mirror1_exclusion() {
    // A fresh 4 GiB filesystem:
    // METADATA|DUP chunk at logical 30408704, length 268435456 (256 MiB)
    // Stripe 0: physical 38797312
    // Stripe 1: physical 307232768
    // Mirror 1 is at physical 67108864.
    // Reverse-mapped: logical 30408704 + (67108864 - 38797312) = 58720256.
    // Excluded range: 58720256..58785792 (64 KiB).
    let chunk = Chunk {
        logical: 30_408_704,
        length: 268_435_456,
        owner: 2,
        stripe_len: 65536,
        chunk_type: BLOCK_GROUP_METADATA | BLOCK_GROUP_DUP,
        io_align: 65536,
        io_width: 65536,
        sector_size: 4096,
        sub_stripes: 1,
        stripes: vec![
            Stripe::new(1, 38_797_312, [0u8; 16]),
            Stripe::new(1, 307_232_768, [0u8; 16]),
        ],
    };

    let mut map = ChunkMap::default();
    map.insert(chunk);

    let exclusions = compute_sb_exclusions(&map);
    assert_eq!(exclusions.len(), 1);
    assert_eq!(exclusions[0], 58_720_256..58_785_792);
    assert_eq!(exclusions[0].end - exclusions[0].start, SB_PROTECT_LEN);
}

#[test]
fn test_leading_case_below_64k_and_mirror0() {
    // Chunk starting at logical 0, length 8 MiB, stripe 0 at physical 0.
    // Leading case excludes [0, 65536).
    // Mirror 0 (65536) falls at offset 65536 in stripe 0 -> logical 65536..131072.
    // Merged exclusion: 0..131072.
    let chunk = Chunk {
        logical: 0,
        length: 8_388_608,
        owner: 2,
        stripe_len: 65536,
        chunk_type: BLOCK_GROUP_DATA,
        io_align: 65536,
        io_width: 65536,
        sector_size: 4096,
        sub_stripes: 1,
        stripes: vec![Stripe::new(1, 0, [0u8; 16])],
    };

    let mut map = ChunkMap::default();
    map.insert(chunk);

    let exclusions = compute_sb_exclusions(&map);
    assert_eq!(exclusions.len(), 1);
    assert_eq!(exclusions[0], 0..131_072);
}

#[test]
fn test_mirror2_256gib_exclusion() {
    // Chunk covering physical 274877906944 (256 GiB).
    // Logical start: 1_000_000_000, length: 1 GiB.
    // Stripe physical: 274_877_000_000.
    // Offset in stripe: 274877906944 - 274877000000 = 906944.
    // Excluded logical: (1_000_000_000 + 906944)..(1_000_000_000 + 906944 + 65536).
    let chunk = Chunk {
        logical: 1_000_000_000,
        length: 1_073_741_824,
        owner: 2,
        stripe_len: 65536,
        chunk_type: BLOCK_GROUP_DATA,
        io_align: 65536,
        io_width: 65536,
        sector_size: 4096,
        sub_stripes: 1,
        stripes: vec![Stripe::new(1, 274_877_000_000, [0u8; 16])],
    };

    let mut map = ChunkMap::default();
    map.insert(chunk);

    let exclusions = compute_sb_exclusions(&map);
    assert_eq!(exclusions.len(), 1);
    assert_eq!(exclusions[0], 1_000_906_944..(1_000_906_944 + 65_536));
}

#[test]
fn test_clamping_to_chunk_end() {
    // Chunk where mirror 1 lands 32 KiB before the end of the chunk.
    // Length is 65536. Stripe start is 67108864 - 32768 = 67076096.
    // Mirror 1 is at 67108864 -> offset in stripe is 32768.
    // Chunk logical: 10_000_000, chunk end: 10_065_536.
    // Logical start: 10_032_768. Logical start + 65536 = 10_098_304 > chunk end.
    // Clamped excluded range: 10_032_768..10_065_536 (32 KiB).
    let chunk = Chunk {
        logical: 10_000_000,
        length: 65_536,
        owner: 2,
        stripe_len: 65536,
        chunk_type: BLOCK_GROUP_DATA,
        io_align: 65536,
        io_width: 65536,
        sector_size: 4096,
        sub_stripes: 1,
        stripes: vec![Stripe::new(1, 67_076_096, [0u8; 16])],
    };

    let mut map = ChunkMap::default();
    map.insert(chunk);

    let exclusions = compute_sb_exclusions(&map);
    assert_eq!(exclusions.len(), 1);
    assert_eq!(exclusions[0], 10_032_768..10_065_536);
    assert_eq!(exclusions[0].end - exclusions[0].start, 32_768);
}

#[test]
fn test_no_mirrors_in_stripes() {
    // Chunk far away from any mirror (e.g. physical 10_000_000..18_388_608, logical 500_000_000).
    let chunk = Chunk {
        logical: 500_000_000,
        length: 8_388_608,
        owner: 2,
        stripe_len: 65536,
        chunk_type: BLOCK_GROUP_DATA,
        io_align: 65536,
        io_width: 65536,
        sector_size: 4096,
        sub_stripes: 1,
        stripes: vec![Stripe::new(1, 10_000_000, [0u8; 16])],
    };

    let mut map = ChunkMap::default();
    map.insert(chunk);

    let exclusions = compute_sb_exclusions(&map);
    assert!(exclusions.is_empty());
}
