//! Checksum items.

use luks_core::fs::btrfs::crc32c::crc32c;
use luks_core::fs::btrfs::tree::CsumType;
use luks_core::fs::btrfs::write::payload::{
    build_extent_csum_items, build_extent_csum_items_from_checksums, max_csum_item_bytes,
};

#[test]
fn test_max_csum_item_bytes_calculation() {
    // Standard 16384 node size, CRC32C (4 bytes):
    // 16384 - 101 (header) - 25 (item) - 30 (headroom) = 16228 bytes.
    // 16228 / 4 = 4057 sectors (each sector is 4096 bytes -> 16,617,472 bytes per item).
    let max_16k = max_csum_item_bytes(16384, 4);
    assert_eq!(max_16k, 16228);

    // 4096 node size, CRC32C (4 bytes):
    // 4096 - 101 - 25 - 30 = 3940 bytes.
    // 3940 / 4 = 985 sectors.
    let max_4k = max_csum_item_bytes(4096, 4);
    assert_eq!(max_4k, 3940);
}

#[test]
fn test_build_extent_csum_items_splitting() {
    let node_size = 16384;
    let sector_size = 4096;
    let disk_bytenr = 100_000_000u64;

    // 20 MiB file: 20 * 1024 * 1024 = 20,971,520 bytes = 5120 sectors.
    // Item 0: 4057 sectors = 16,617,472 bytes.
    // Item 1: 5120 - 4057 = 1063 sectors = 4,354,048 bytes.
    let disk_num_bytes = 20 * 1024 * 1024;
    let test_data = vec![0xABu8; disk_num_bytes as usize];

    let items = build_extent_csum_items(
        CsumType::Crc32c,
        node_size,
        sector_size,
        disk_bytenr,
        disk_num_bytes,
        &test_data,
    )
    .expect("build csum items");

    assert_eq!(items.len(), 2);

    // Item 0
    assert_eq!(items[0].0, disk_bytenr);
    assert_eq!(items[0].1.len(), 4057 * 4); // 16228 bytes

    // Item 1
    let expected_item1_start = disk_bytenr + (4057 * 4096);
    assert_eq!(items[1].0, expected_item1_start);
    assert_eq!(items[1].1.len(), 1063 * 4); // 4252 bytes
}

#[test]
fn test_build_extent_csum_items_50mb() {
    let node_size = 16384;
    let sector_size = 4096;
    let disk_bytenr = 200_000_000u64;

    // 50 MiB = 52,428,800 bytes = 12,800 sectors.
    // 12,800 / 4057 = 3 full items of 4057 sectors + 1 item of 629 sectors = 4 items.
    let disk_num_bytes = 50 * 1024 * 1024;
    let test_data = vec![0x55u8; disk_num_bytes as usize];

    let items = build_extent_csum_items(
        CsumType::Crc32c,
        node_size,
        sector_size,
        disk_bytenr,
        disk_num_bytes,
        &test_data,
    )
    .expect("build csum items 50mb");

    assert_eq!(items.len(), 4);
    assert_eq!(items[0].0, disk_bytenr);
    assert_eq!(items[0].1.len(), 4057 * 4);
    assert_eq!(items[1].0, disk_bytenr + 4057 * 4096);
    assert_eq!(items[1].1.len(), 4057 * 4);
    assert_eq!(items[2].0, disk_bytenr + 2 * 4057 * 4096);
    assert_eq!(items[2].1.len(), 4057 * 4);
    assert_eq!(items[3].0, disk_bytenr + 3 * 4057 * 4096);
    assert_eq!(items[3].1.len(), 629 * 4);
}

#[test]
fn test_build_extent_csum_items_from_checksums_matches_build_extent_csum_items() {
    let node_size = 16384;
    let sector_size = 4096;
    let disk_bytenr = 100_000_000u64;
    let disk_num_bytes = 20 * 1024 * 1024;
    let test_data = vec![0xABu8; disk_num_bytes as usize];

    let from_data = build_extent_csum_items(
        CsumType::Crc32c,
        node_size,
        sector_size,
        disk_bytenr,
        disk_num_bytes,
        &test_data,
    )
    .expect("build csum items from data");

    let nr_sectors = (disk_num_bytes as usize) / (sector_size as usize);
    let mut checksums = Vec::with_capacity(nr_sectors);
    for i in 0..nr_sectors {
        let start = i * sector_size as usize;
        let crc = crc32c(&test_data[start..start + sector_size as usize]);
        checksums.push((disk_bytenr + (i * sector_size as usize) as u64, crc));
    }

    let from_checksums = build_extent_csum_items_from_checksums(node_size, &checksums)
        .expect("build csum items from checksums");

    assert_eq!(from_data, from_checksums);
}

#[test]
fn test_build_extent_csum_items_from_checksums_discontinuous_extents() {
    let node_size = 16384;
    let checksums = vec![
        (10_000_000, 0x11111111),
        (10_004_096, 0x22222222),
        (20_000_000, 0x33333333),
        (20_004_096, 0x44444444),
    ];

    let items = build_extent_csum_items_from_checksums(node_size, &checksums)
        .expect("build csum items discontinuous");

    assert_eq!(items.len(), 2);
    assert_eq!(items[0].0, 10_000_000);
    assert_eq!(items[0].1.len(), 8);
    assert_eq!(&items[0].1[0..4], &0x11111111u32.to_le_bytes());
    assert_eq!(&items[0].1[4..8], &0x22222222u32.to_le_bytes());

    assert_eq!(items[1].0, 20_000_000);
    assert_eq!(items[1].1.len(), 8);
    assert_eq!(&items[1].1[0..4], &0x33333333u32.to_le_bytes());
    assert_eq!(&items[1].1[4..8], &0x44444444u32.to_le_bytes());
}

#[test]
fn test_build_extent_csum_items_from_checksums_empty() {
    let items = build_extent_csum_items_from_checksums(16384, &[])
        .expect("build empty");
    assert!(items.is_empty());
}

#[test]
fn items_follow_on_from_one_another() {
    let at = 1_048_576u64;
    let data: Vec<u8> = (0..300 * 4096usize).map(|i| (i % 241) as u8).collect();
    let items =
        build_extent_csum_items(CsumType::Crc32c, 512, 4096, at, data.len() as u64, &data).unwrap();
    assert!(items.len() > 3);
    let mut next = at;
    let mut joined: Vec<u8> = Vec::new();
    for (key, payload) in &items {
        assert_eq!(*key, next);
        next += payload.len() as u64 / 4 * 4096;
        joined.extend_from_slice(payload);
    }
    assert_eq!(next, at + data.len() as u64);
    let all: Vec<u8> = data.chunks(4096).flat_map(|s| crc32c(s).to_le_bytes()).collect();
    assert_eq!(joined, all);
}
