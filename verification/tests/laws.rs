//! The library's laws on given values.

use luks_core::fs::btrfs::blocks::BlockMap;
use luks_core::fs::btrfs::chunk::{BLOCK_GROUP_DATA, BLOCK_GROUP_METADATA};
use luks_core::fs::btrfs::sha256::sha256;
use luks_core::fs::btrfs::tree::{CsumType, Key, Node};
use luks_core::fs::btrfs::write::extent_tree::BlockGroupItem;
use luks_core::fs::btrfs::write::interval_set::IntervalSet;
use luks_core::fs::btrfs::write::node::{InteriorNode, Leaf};
use luks_core::fs::btrfs::write::pieces::Layout;
use luks_core::fs::btrfs::write::space::{BlockGroupFreeSpace, FreeRange, FreeSpaceMap};
use luks_core::fs::path::{has_dots, split_last, split_path, trim_end, trim_slashes};
use luks_core::fs::{type_of_entry, FileType};

const UUID: [u8; 16] = [5; 16];

#[test]
fn a_written_leaf_is_read_back() {
    let mut l = Leaf::new(8192, 3, 5, UUID, CsumType::Crc32c);
    l.insert_item(Key::new(7, 1, 0), vec![1, 2, 3], 4096).unwrap();
    l.insert_item(Key::new(5, 1, 9), vec![], 4096).unwrap();
    l.insert_item(Key::new(6, 2, 0), vec![4; 100], 4096).unwrap();
    let raw = l.emit(4096).unwrap();
    assert_eq!(raw.len(), 4096);
    let n = Node::parse(&raw, 8192, CsumType::Crc32c, &UUID).unwrap();
    assert_eq!(n.level, 0);
    assert_eq!(n.items, l.items);
    assert_eq!(n.items[0].key, Key::new(5, 1, 9));
    assert_eq!((n.generation, n.owner), (3, 5));
    assert!(Node::parse(&raw, 4096, CsumType::Crc32c, &UUID).is_err());
    assert!(Node::parse(&raw, 8192, CsumType::Crc32c, &[6; 16]).is_err());
    assert_eq!(Leaf::from_node(&n, CsumType::Crc32c).unwrap(), l);
}

#[test]
fn a_written_interior_node_is_read_back() {
    let mut i = InteriorNode::new(4096, 3, 5, 1, UUID, CsumType::Crc32c).unwrap();
    i.insert_entry(Key::new(9, 1, 0), 12288, 2, 4096).unwrap();
    i.insert_entry(Key::new(4, 1, 0), 8192, 3, 4096).unwrap();
    let raw = i.emit(4096).unwrap();
    let n = Node::parse(&raw, 4096, CsumType::Crc32c, &UUID).unwrap();
    assert_eq!(n.level, 1);
    assert_eq!(n.ptrs.len(), 2);
    assert_eq!((n.ptrs[0].key, n.ptrs[0].blockptr), (Key::new(4, 1, 0), 8192));
    assert_eq!((n.ptrs[1].key, n.ptrs[1].blockptr), (Key::new(9, 1, 0), 12288));
    assert_eq!(n.child_for(&Key::new(8, 0, 0)).unwrap(), 0);
    assert_eq!(n.child_for(&Key::new(9, 1, 0)).unwrap(), 1);
    assert!(InteriorNode::new(0, 0, 0, 0, UUID, CsumType::Crc32c).is_err());
}

fn map_of(flags: u64, free: Vec<FreeRange>) -> FreeSpaceMap {
    let total: u64 = free.iter().map(|r| r.length).sum();
    FreeSpaceMap {
        block_groups: vec![BlockGroupFreeSpace {
            block_group: BlockGroupItem {
                start: 0,
                length: 1_000_000,
                used: 1_000_000 - total,
                chunk_objectid: 256,
                flags,
            },
            allocated_extents: Vec::new(),
            free_ranges: free,
            pinned_freed: Vec::new(),
            excluded_ranges: Vec::new(),
            total_allocated_bytes: 1_000_000 - total,
            total_free_bytes: total,
        }],
    }
}

#[test]
fn what_is_handed_out_was_free_and_is_handed_out_once() {
    let mut m = map_of(
        BLOCK_GROUP_METADATA,
        vec![
            FreeRange { start: 5000, length: 9000 },
            FreeRange { start: 40_000, length: 5000 },
        ],
    );
    let mut set = IntervalSet::new();
    while let Ok(at) = m.allocate_metadata(4096) {
        assert_eq!(at % 4096, 0);
        assert!((5000..14_000).contains(&at) || (40_000..45_000).contains(&at));
        assert!(set.insert(at, 4096));
    }
    assert_eq!(set.intervals(), &[(8192, 12_288), (40_960, 45_056)][..1]);
    let mut d = map_of(BLOCK_GROUP_DATA, vec![FreeRange { start: 4096, length: 12_288 }]);
    assert_eq!(d.allocate_data_chunk(8192, 4096).unwrap(), (4096, 8192));
    assert_eq!(d.allocate_data_chunk(8192, 4096).unwrap(), (12_288, 4096));
    assert!(d.allocate_data_chunk(8192, 4096).is_err());
}

#[test]
fn freed_space_waits_for_the_commit() {
    let mut m = map_of(BLOCK_GROUP_DATA, Vec::new());
    m.free_data(8192, 4096).unwrap();
    assert!(m.allocate_data(4096, 4096).is_err());
    m.unpin_freed();
    assert_eq!(m.allocate_data(4096, 4096).unwrap(), 8192);
}

#[test]
fn a_freed_block_waits_for_the_commit() {
    let mut m = map_of(BLOCK_GROUP_METADATA, vec![FreeRange { start: 16_384, length: 4096 }]);
    m.free_metadata(8192, 4096).unwrap();
    assert_eq!(m.block_groups[0].pinned_freed, vec![FreeRange { start: 8192, length: 4096 }]);
    assert_eq!(m.allocate_metadata(4096).unwrap(), 16_384);
    assert!(m.allocate_metadata(4096).is_err());
    m.unpin_freed();
    assert_eq!(m.allocate_metadata(4096).unwrap(), 8192);
}

#[test]
fn what_is_released_is_free_and_only_once() {
    let mut m = map_of(
        BLOCK_GROUP_DATA,
        vec![FreeRange { start: 0, length: 4096 }, FreeRange { start: 20_480, length: 4096 }],
    );
    m.exclude_ranges(&[10_000..12_000, 21_000..22_000]);
    m.free_data(4096, 4096).unwrap();
    m.free_data(8192, 8192).unwrap();
    m.unpin_freed();
    let once = m.clone();
    let g = &once.block_groups[0];
    assert!(g.pinned_freed.is_empty());
    let free = |a: u64| g.free_ranges.iter().any(|r| r.start <= a && a < r.start + r.length);
    let withheld = |a: u64| {
        g.excluded_ranges.iter().any(|r| r.start <= a && a < r.start + r.length)
    };
    for a in (0..30_000u64).step_by(250) {
        let before = a < 4096 || (20_480..24_576).contains(&a);
        let pinned = (4096..16_384).contains(&a);
        assert_eq!(free(a), (before || pinned) && !withheld(a));
    }
    let total: u64 = g.free_ranges.iter().map(|r| r.length).sum();
    assert_eq!(g.total_free_bytes, total);
    m.unpin_freed();
    assert_eq!(m, once);
}

#[test]
fn blocks_are_listed_in_order() {
    let mut b = BlockMap::new();
    assert!(b.is_empty());
    b.insert(9, vec![1]);
    b.insert(3, vec![1, 2]);
    b.insert(5, vec![]);
    assert_eq!(b.addresses(), vec![3, 5, 9]);
    assert_eq!(b.total_bytes(), 3);
    b.remove(3);
    assert!(!b.contains_key(3));
}

#[test]
fn pieces_make_the_same_sectors_as_the_whole() {
    let data: Vec<u8> = (0..10_000usize).map(|i| (i % 253) as u8).collect();
    let runs = vec![(1_000_000u64, 8192u64), (5_000_000, 4096)];
    let mut whole = Layout { writes: Vec::new(), sums: Vec::new(), tail: Vec::new() };
    whole.over_runs(&runs, 0, &data, 4096);
    let mut parts = Layout { writes: Vec::new(), sums: Vec::new(), tail: Vec::new() };
    let mut done = 0usize;
    for piece in data.chunks(1234) {
        parts.over_runs(&runs, done as u64, piece, 4096);
        done += piece.len();
    }
    assert_eq!(whole.sums, parts.sums);
    assert_eq!(whole.tail, parts.tail);
    assert_eq!(whole.sums.len(), 3);
    assert_eq!(whole.sums[1].0, 1_004_096);
    assert_eq!(whole.sums[2].0, 5_000_000);
    assert_eq!(whole.tail.len(), 10_000 - 8192);
}

#[test]
fn paths_are_taken_apart() {
    assert_eq!(split_path("/a//./b/"), vec!["a", "b"]);
    assert_eq!(trim_slashes("//a/b//"), "a/b");
    assert_eq!(trim_end("//a/b//"), "//a/b");
    assert_eq!(split_last("a/b/c"), ("a/b", "c"));
    assert_eq!(split_last("c"), ("", "c"));
    assert!(has_dots("/a/../b"));
    assert!(has_dots("."));
    assert!(!has_dots("/a/...b/.c"));
}

#[test]
fn entry_types_are_known() {
    assert_eq!(type_of_entry(1), FileType::Regular);
    assert_eq!(type_of_entry(2), FileType::Directory);
    assert_eq!(type_of_entry(7), FileType::Symlink);
    assert_eq!(type_of_entry(99), FileType::Unknown);
}

#[test]
fn ranges_are_withheld_once() {
    let mut m = FreeSpaceMap {
        block_groups: vec![BlockGroupFreeSpace {
            block_group: BlockGroupItem {
                start: 1000,
                length: 1000,
                used: 100,
                flags: BLOCK_GROUP_DATA,
                chunk_objectid: 256,
            },
            allocated_extents: vec![],
            free_ranges: vec![
                FreeRange { start: 1100, length: 200 },
                FreeRange { start: 1400, length: 600 },
            ],
            pinned_freed: vec![],
            excluded_ranges: vec![],
            total_allocated_bytes: 100,
            total_free_bytes: 800,
        }],
    };
    let out = [0..1110, 1250..1450, 1500..1500, 1990..9000];
    m.exclude_ranges(&out);
    let once = m.clone();
    let g = &once.block_groups[0];
    assert_eq!(
        g.free_ranges,
        vec![FreeRange { start: 1110, length: 140 }, FreeRange { start: 1450, length: 540 }]
    );
    assert_eq!(
        g.excluded_ranges,
        vec![
            FreeRange { start: 1100, length: 10 },
            FreeRange { start: 1250, length: 50 },
            FreeRange { start: 1400, length: 50 },
            FreeRange { start: 1990, length: 10 },
        ]
    );
    assert_eq!((g.total_free_bytes, g.block_group.used), (680, 100));
    m.exclude_ranges(&out);
    assert_eq!(m, once);
}

fn hex(d: &[u8]) -> String {
    d.iter().map(|b| format!("{b:02x}")).collect()
}

#[test]
fn sha256_of_known_messages() {
    assert_eq!(
        hex(&sha256(b"")),
        "e3b0c44298fc1c149afbf4c8996fb92427ae41e4649b934ca495991b7852b855"
    );
    assert_eq!(
        hex(&sha256(b"abc")),
        "ba7816bf8f01cfea414140de5dae2223b00361a396177a9cb410ff61f20015ad"
    );
    assert_eq!(
        hex(&sha256(b"abcdbcdecdefdefgefghfghighijhijkijkljklmklmnlmnomnopnopq")),
        "248d6a61d20638b8e5c026930c3e6039a33ce45964ff2167f6ecedd419db06c1"
    );
    assert_eq!(CsumType::Sha256.size(), 32);
    assert_eq!(CsumType::Sha256.calculate(b"abc"), sha256(b"abc"));
    assert_eq!(CsumType::from_code(2), Some(CsumType::Sha256));
    assert_eq!(CsumType::from_code(1), None);
}
