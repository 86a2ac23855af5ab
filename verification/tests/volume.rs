//! Whole volumes: a small filesystem is built in memory, changed, and mounted
//! again.

use std::cell::Cell;
use std::rc::Rc;

use luks_core::device::{MemDevice, ReadAt, WriteAt};
use luks_core::error::{LuksError, Result};
use luks_core::fs::btrfs::blocks::BlockMap;
use luks_core::fs::btrfs::chunk::{
    Chunk, BLOCK_GROUP_DATA, BLOCK_GROUP_METADATA, BLOCK_GROUP_SYSTEM,
};
use luks_core::fs::btrfs::crc32c::crc32c;
use luks_core::fs::btrfs::extent::{ExtentKind, FileExtent};
use luks_core::fs::btrfs::sha256::sha256;
use luks_core::fs::btrfs::tree::{
    CsumType, Key, Node, CHUNK_TREE_OBJECTID, CSUM_TREE_OBJECTID, DEV_EXTENT_KEY, DEV_ITEM_KEY,
    DEV_TREE_OBJECTID, EXTENT_CSUM_KEY, EXTENT_CSUM_OBJECTID, EXTENT_DATA_KEY,
    EXTENT_TREE_OBJECTID, FS_TREE_OBJECTID, INODE_ITEM_KEY, INODE_REF_KEY, ROOT_ITEM_KEY,
    ROOT_TREE_OBJECTID,
};
use luks_core::fs::btrfs::volume::Btrfs;
use luks_core::fs::btrfs::write::cow::cow_tree_mutate;
use luks_core::fs::btrfs::write::extent_tree::{BlockGroupItem, ExtentTree, MetadataItem};
use luks_core::fs::btrfs::write::file::BtrfsFileWriter;
use luks_core::fs::btrfs::write::load::read_free_space_tree;
use luks_core::fs::btrfs::write::node::Leaf;
use luks_core::fs::btrfs::write::payload::{build_inode_item, build_inode_ref};
use luks_core::fs::btrfs::write::space::{FreeRange, FreeSpaceMap};
use luks_core::fs::detect::{detect, FsKind};
use luks_core::fs::{DirEntry, FileType};

const NODE: u32 = 4096;
const SECTOR: u64 = 4096;
const MIB: u64 = 1024 * 1024;
const SIZE: u64 = 24 * MIB;
const SYSTEM: (u64, u64, u64) = (MIB, MIB, 2 * MIB);
const METADATA: (u64, u64, u64) = (4 * MIB, 4 * MIB, 4 * MIB);
const DATA: (u64, u64, u64) = (16 * MIB, MIB, 9 * MIB);
const UUID: [u8; 16] = [7; 16];
const GENERATION: u64 = 10;

fn leaf(bytenr: u64, owner: u64, items: Vec<(Key, Vec<u8>)>) -> (u64, Vec<u8>) {
    let mut l = Leaf::new(bytenr, GENERATION, owner, UUID, CsumType::Crc32c);
    for (key, data) in items {
        l.insert_item(key, data, NODE).unwrap();
    }
    (bytenr, l.emit(NODE).unwrap())
}

fn root_item(bytenr: u64, dirid: u64) -> Vec<u8> {
    let mut d = vec![0u8; 439];
    d[160..168].copy_from_slice(&GENERATION.to_le_bytes());
    d[168..176].copy_from_slice(&dirid.to_le_bytes());
    d[176..184].copy_from_slice(&bytenr.to_le_bytes());
    d[216..220].copy_from_slice(&1u32.to_le_bytes());
    d
}

fn root_key(objectid: u64) -> Key {
    Key::new(objectid, ROOT_ITEM_KEY, 0)
}

fn group(at: (u64, u64, u64), used: u64, flags: u64) -> (Key, Vec<u8>) {
    BlockGroupItem {
        start: at.0,
        length: at.1,
        used,
        chunk_objectid: 256,
        flags,
    }
    .emit()
}

fn dev_extent(at: (u64, u64, u64)) -> (Key, Vec<u8>) {
    let mut d = vec![0u8; 48];
    d[0..8].copy_from_slice(&CHUNK_TREE_OBJECTID.to_le_bytes());
    d[8..16].copy_from_slice(&256u64.to_le_bytes());
    d[16..24].copy_from_slice(&at.0.to_le_bytes());
    d[24..32].copy_from_slice(&at.1.to_le_bytes());
    (Key::new(1, DEV_EXTENT_KEY, at.2), d)
}

fn chunk(at: (u64, u64, u64), flags: u64) -> (Key, Vec<u8>) {
    Chunk::new_single(at.0, at.1, flags, 1, at.2, [9; 16]).emit()
}

fn physical(logical: u64) -> usize {
    for at in [SYSTEM, METADATA, DATA] {
        if logical >= at.0 && logical < at.0 + at.1 {
            return (logical - at.0 + at.2) as usize;
        }
    }
    panic!("unmapped address {logical}");
}

/// A filesystem with an empty root directory.
fn image() -> Vec<u8> {
    image_with(DATA)
}

/// The same, with its data chunk elsewhere.
fn image_with(data_at: (u64, u64, u64)) -> Vec<u8> {
    let chunk_at = SYSTEM.0;
    let root_at = METADATA.0;
    let extent_at = METADATA.0 + 4096;
    let dev_at = METADATA.0 + 2 * 4096;
    let fs_at = METADATA.0 + 3 * 4096;
    let csum_at = METADATA.0 + 4 * 4096;

    let mut dev_item = vec![0u8; 98];
    dev_item[0..8].copy_from_slice(&1u64.to_le_bytes());
    dev_item[8..16].copy_from_slice(&SIZE.to_le_bytes());
    dev_item[16..24].copy_from_slice(&(SYSTEM.1 + METADATA.1 + data_at.1).to_le_bytes());

    let mut extents = vec![
        group(SYSTEM, 4096, BLOCK_GROUP_SYSTEM),
        group(METADATA, 5 * 4096, BLOCK_GROUP_METADATA),
        group(data_at, 0, BLOCK_GROUP_DATA),
    ];
    for (at, owner) in [
        (chunk_at, CHUNK_TREE_OBJECTID),
        (root_at, ROOT_TREE_OBJECTID),
        (extent_at, EXTENT_TREE_OBJECTID),
        (dev_at, DEV_TREE_OBJECTID),
        (fs_at, FS_TREE_OBJECTID),
        (csum_at, CSUM_TREE_OBJECTID),
    ] {
        extents.push(MetadataItem::emit_tree_block(at, 0, GENERATION, owner));
    }

    let blocks = vec![
        leaf(
            chunk_at,
            CHUNK_TREE_OBJECTID,
            vec![
                (Key::new(1, DEV_ITEM_KEY, 1), dev_item.clone()),
                chunk(SYSTEM, BLOCK_GROUP_SYSTEM),
                chunk(METADATA, BLOCK_GROUP_METADATA),
                chunk(data_at, BLOCK_GROUP_DATA),
            ],
        ),
        leaf(
            root_at,
            ROOT_TREE_OBJECTID,
            vec![
                (root_key(EXTENT_TREE_OBJECTID), root_item(extent_at, 0)),
                (root_key(DEV_TREE_OBJECTID), root_item(dev_at, 0)),
                (root_key(FS_TREE_OBJECTID), root_item(fs_at, 256)),
                (root_key(CSUM_TREE_OBJECTID), root_item(csum_at, 0)),
            ],
        ),
        leaf(extent_at, EXTENT_TREE_OBJECTID, extents),
        leaf(
            dev_at,
            DEV_TREE_OBJECTID,
            vec![dev_extent(SYSTEM), dev_extent(METADATA), dev_extent(data_at)],
        ),
        leaf(
            fs_at,
            FS_TREE_OBJECTID,
            vec![
                (
                    Key::new(256, INODE_ITEM_KEY, 0),
                    build_inode_item(GENERATION, 0, 0, 0o40755, 1000, 100, 1, 5, 6),
                ),
                (Key::new(256, INODE_REF_KEY, 256), build_inode_ref(0, "..")),
            ],
        ),
        leaf(csum_at, CSUM_TREE_OBJECTID, vec![]),
    ];

    let mut disk = vec![0u8; SIZE as usize];
    for (bytenr, raw) in blocks {
        let at = physical(bytenr);
        disk[at..at + raw.len()].copy_from_slice(&raw);
    }

    let mut sb = vec![0u8; 4096];
    sb[0x20..0x30].copy_from_slice(&UUID);
    sb[0x30..0x38].copy_from_slice(&0x1_0000u64.to_le_bytes());
    sb[0x38..0x40].copy_from_slice(&1u64.to_le_bytes());
    sb[0x40..0x48].copy_from_slice(b"_BHRfS_M");
    sb[0x48..0x50].copy_from_slice(&GENERATION.to_le_bytes());
    sb[0x50..0x58].copy_from_slice(&root_at.to_le_bytes());
    sb[0x58..0x60].copy_from_slice(&chunk_at.to_le_bytes());
    sb[0x70..0x78].copy_from_slice(&SIZE.to_le_bytes());
    sb[0x78..0x80].copy_from_slice(&(6 * 4096u64).to_le_bytes());
    sb[0x88..0x90].copy_from_slice(&1u64.to_le_bytes());
    sb[0x90..0x94].copy_from_slice(&(SECTOR as u32).to_le_bytes());
    sb[0x94..0x98].copy_from_slice(&NODE.to_le_bytes());
    let (key, data) = chunk(SYSTEM, BLOCK_GROUP_SYSTEM);
    let mut sys = Vec::new();
    sys.extend_from_slice(&key.objectid.to_le_bytes());
    sys.push(key.item_type);
    sys.extend_from_slice(&key.offset.to_le_bytes());
    sys.extend_from_slice(&data);
    sb[0xa0..0xa4].copy_from_slice(&(sys.len() as u32).to_le_bytes());
    sb[0x32b..0x32b + sys.len()].copy_from_slice(&sys);
    sb[0xa4..0xac].copy_from_slice(&GENERATION.to_le_bytes());
    sb[0xbc..0xc4].copy_from_slice(&0x100u64.to_le_bytes());
    sb[0xc9..0xc9 + 98].copy_from_slice(&dev_item);
    let csum = crc32c(&sb[32..4096]);
    sb[0..4].copy_from_slice(&csum.to_le_bytes());
    disk[0x1_0000..0x1_1000].copy_from_slice(&sb);
    disk
}

fn fresh() -> Btrfs<MemDevice> {
    Btrfs::mount(MemDevice::new(image())).unwrap()
}

fn again(fs: Btrfs<MemDevice>) -> Btrfs<MemDevice> {
    Btrfs::mount(MemDevice::new(fs.into_device().into_bytes())).unwrap()
}

fn names(fs: &Btrfs<MemDevice>, path: &str) -> Vec<String> {
    let at = fs.resolve_no_follow(fs.fs_tree(), path).unwrap();
    let entries: Vec<DirEntry> = fs
        .list_dir_by_inode(at.tree.bytenr, at.inode.objectid)
        .unwrap();
    entries.into_iter().map(|e| e.name).collect()
}

fn present(fs: &Btrfs<MemDevice>, path: &str) -> bool {
    match fs.resolve_no_follow(fs.fs_tree(), path) {
        Ok(_) => true,
        Err(LuksError::NotFound(_)) => false,
        Err(e) => panic!("{e:?}"),
    }
}

/// The contents of a file, read by way of its extents; every sector is checked
/// against the checksum tree.
fn content(fs: Btrfs<MemDevice>, path: &str) -> (Btrfs<MemDevice>, Vec<u8>) {
    let at = fs.resolve_no_follow(fs.fs_tree(), path).unwrap();
    let csums = fs.tree_root(CSUM_TREE_OBJECTID).unwrap();
    let mut sums: Vec<(u64, u32)> = Vec::new();
    for item in fs
        .items_of_type(csums.bytenr, EXTENT_CSUM_OBJECTID, EXTENT_CSUM_KEY)
        .unwrap()
    {
        for (i, b) in item.data.chunks(4).enumerate() {
            let sum = u32::from_le_bytes([b[0], b[1], b[2], b[3]]);
            sums.push((item.key.offset + i as u64 * SECTOR, sum));
        }
    }
    let mut spans: Vec<(u64, u64, usize, usize)> = Vec::new();
    for item in fs
        .items_of_type(at.tree.bytenr, at.inode.objectid, EXTENT_DATA_KEY)
        .unwrap()
    {
        let e = FileExtent::parse(item.key.offset, &item.data).unwrap();
        assert_eq!(e.kind, ExtentKind::Regular);
        let mut done: u64 = 0;
        while done < e.num_bytes {
            let (p, _) = fs.chunk_map().map(e.disk_bytenr + done).unwrap();
            spans.push((
                e.disk_bytenr + done,
                e.file_offset + done,
                p as usize,
                SECTOR as usize,
            ));
            done += SECTOR;
        }
    }
    let disk = fs.into_device().into_bytes();
    let mut out = vec![0u8; at.inode.size as usize];
    for (logical, offset, p, n) in spans {
        let sector = &disk[p..p + n];
        assert!(sums.contains(&(logical, crc32c(sector))));
        for (i, b) in sector.iter().enumerate() {
            if offset as usize + i < out.len() {
                out[offset as usize + i] = *b;
            }
        }
    }
    (Btrfs::mount(MemDevice::new(disk)).unwrap(), out)
}

fn pattern(n: usize, seed: usize) -> Vec<u8> {
    (0..n).map(|i| ((i * 41 + seed) & 0xFF) as u8).collect()
}

#[test]
fn a_new_volume_mounts_with_an_empty_root() {
    let fs = fresh();
    assert_eq!(fs.superblock().generation, GENERATION);
    assert_eq!(fs.fs_tree().root_dirid, 256);
    let top = fs.resolve_no_follow(fs.fs_tree(), "/").unwrap();
    assert_eq!(top.inode.file_type(), FileType::Directory);
    assert!(names(&fs, "/").is_empty());
    assert!(read_free_space_tree(&fs).unwrap().is_none());
}

#[test]
fn a_created_file_is_found_after_a_remount() {
    let mut fs = fresh();
    fs.create_file("/", "hello.txt", 77, 88).unwrap();
    let fs = again(fs);
    assert_eq!(fs.superblock().generation, GENERATION + 1);
    let at = fs.resolve_no_follow(fs.fs_tree(), "/hello.txt").unwrap();
    assert_eq!(at.inode.file_type(), FileType::Regular);
    assert_eq!(at.inode.objectid, 257);
    assert_eq!(at.inode.size, 0);
    assert_eq!((at.inode.uid, at.inode.gid), (1000, 100));
    assert_eq!(names(&fs, "/"), vec!["hello.txt".to_string()]);
    let top = fs.resolve_no_follow(fs.fs_tree(), "/").unwrap();
    assert_eq!(top.inode.size, 2 * "hello.txt".len() as u64);
}

#[test]
fn a_name_is_taken_once() {
    let mut fs = fresh();
    fs.create_file("/", "a", 1, 0).unwrap();
    let r = fs.create_file("/", "a", 2, 0);
    assert!(matches!(r, Err(LuksError::AlreadyExists(_))));
    assert_eq!(names(&fs, "/"), vec!["a".to_string()]);
}

#[test]
fn many_files_split_the_trees_and_are_all_found() {
    let mut fs = fresh();
    for i in 0..60 {
        fs.create_file("/", &format!("file number {i}"), i, 0).unwrap();
    }
    let mut fs = again(fs);
    assert!(fs.fs_tree().level > 0);
    let listed = names(&fs, "/");
    assert_eq!(listed.len(), 60);
    for i in 0..60 {
        assert_eq!(listed[i], format!("file number {i}"));
        assert!(present(&fs, &format!("/file number {i}")));
    }
    for i in 0..60 {
        if i % 3 != 0 {
            fs.delete_file(&format!("/file number {i}"), 1, 2).unwrap();
        }
    }
    let fs = again(fs);
    assert_eq!(names(&fs, "/").len(), 20);
    for i in 0..60 {
        assert_eq!(present(&fs, &format!("/file number {i}")), i % 3 == 0);
    }
}

#[test]
fn a_directory_tree_is_deleted_whole() {
    let mut fs = fresh();
    let d = fs.create_directory("/", "dir", 1, 0).unwrap();
    assert_eq!(d, 257);
    let e = fs.create_directory_in_dir(d, "inner", 2, 0).unwrap();
    assert_eq!(e, 258);
    fs.create_file("/dir/inner", "deep", 3, 0).unwrap();
    fs.create_file("/dir", "shallow", 3, 0).unwrap();
    fs.create_file("/", "other", 3, 0).unwrap();
    let mut fs = again(fs);
    assert!(present(&fs, "/dir/inner/deep"));
    assert!(present(&fs, "/dir/inner/../shallow"));
    fs.delete_file("/dir", 4, 0).unwrap();
    let fs = again(fs);
    assert!(!present(&fs, "/dir"));
    assert_eq!(names(&fs, "/"), vec!["other".to_string()]);
}

#[test]
fn deletion_refuses_dots_and_the_root() {
    let mut fs = fresh();
    fs.create_directory("/", "dir", 1, 0).unwrap();
    fs.create_file("/dir", "kept", 1, 0).unwrap();
    assert!(matches!(
        fs.delete_file("/dir/.", 1, 0),
        Err(LuksError::UnsupportedFsFeature(_))
    ));
    assert!(matches!(
        fs.delete_file("/dir/..", 1, 0),
        Err(LuksError::UnsupportedFsFeature(_))
    ));
    assert!(matches!(fs.delete_file("//", 1, 0), Err(LuksError::IsADirectory(_))));
    assert!(matches!(fs.delete_file("/nothing", 1, 0), Err(LuksError::NotFound(_))));
    assert!(present(&fs, "/dir/kept"));
}

#[test]
fn a_file_is_renamed_and_moved() {
    let mut fs = fresh();
    fs.create_directory("/", "from", 1, 0).unwrap();
    fs.create_directory("/", "to", 1, 0).unwrap();
    fs.create_file("/from", "old name", 1, 0).unwrap();
    let before = fs.resolve_no_follow(fs.fs_tree(), "/from/old name").unwrap();
    fs.rename("/from", "old name", "/to", "new name", 9, 9).unwrap();
    let mut fs = again(fs);
    assert!(!present(&fs, "/from/old name"));
    let after = fs.resolve_no_follow(fs.fs_tree(), "/to/new name").unwrap();
    assert_eq!(after.inode.objectid, before.inode.objectid);
    assert!(names(&fs, "/from").is_empty());
    assert_eq!(names(&fs, "/to"), vec!["new name".to_string()]);
    assert!(fs.rename("/", "to", "/to", "inside itself", 9, 9).is_err());
    assert!(matches!(
        fs.rename("/", "missing", "/", "other", 9, 9),
        Err(LuksError::NotFound(_))
    ));
}

#[test]
fn a_rename_replaces_a_file() {
    let mut fs = fresh();
    fs.create_file_with_data("/", "a", &pattern(5000, 1), 1, 0, 0).unwrap();
    fs.create_file_with_data("/", "b", &pattern(9000, 2), 1, 0, 0).unwrap();
    fs.rename("/", "a", "/", "b", 2, 0).unwrap();
    let fs = again(fs);
    assert!(!present(&fs, "/a"));
    let (_, got) = content(fs, "/b");
    assert_eq!(got, pattern(5000, 1));
}

#[test]
fn data_reads_back_as_it_was_written() {
    for n in [0usize, 1, 4095, 4096, 4097, 50_000] {
        let mut fs = fresh();
        let data = pattern(n, n);
        fs.create_file_with_data("/", "file", &data, 5, 6, 0).unwrap();
        let (fs, got) = content(again(fs), "/file");
        assert_eq!(got, data);
        let at = fs.resolve_no_follow(fs.fs_tree(), "/file").unwrap();
        assert_eq!(at.inode.size, n as u64);
    }
}

#[test]
fn an_existing_file_takes_new_data() {
    let mut fs = fresh();
    fs.create_file("/", "file", 1, 0).unwrap();
    let data = pattern(10_000, 3);
    fs.write_file("/file", &data, 2, 0).unwrap();
    let (fs, got) = content(again(fs), "/file");
    assert_eq!(got, data);
    let mut fs = fs;
    assert!(fs.write_file("/", &data, 2, 0).is_err());
    assert!(matches!(
        fs.write_file("/missing", &data, 2, 0),
        Err(LuksError::NotFound(_))
    ));
}

#[test]
fn times_are_set() {
    let mut fs = fresh();
    fs.create_file("/", "file", 1, 0).unwrap();
    fs.set_mtime("/file", 1234, 567).unwrap();
    let fs = again(fs);
    let at = fs.resolve_no_follow(fs.fs_tree(), "/file").unwrap();
    let key = Key::new(at.inode.objectid, INODE_ITEM_KEY, 0);
    let d = fs.find_item(fs.fs_tree().bytenr, &key).unwrap().unwrap();
    assert_eq!(&d[136..144], &1234u64.to_le_bytes());
    assert_eq!(&d[144..148], &567u32.to_le_bytes());
    assert_eq!(&d[124..132], &1234u64.to_le_bytes());
}

#[test]
fn a_file_written_in_pieces_is_whole() {
    let data = pattern(49_152, 7);
    let mut fs = fresh();
    let mut w = fs.begin_file(data.len() as u64, 0).unwrap();
    assert_eq!(w.size(), 49_152);
    fs.write_chunk(&mut w, &data[0..10_000]).unwrap();
    assert_eq!(w.written_bytes(), 10_000);
    fs.write_chunk(&mut w, &data[10_000..35_000]).unwrap();
    fs.write_chunk(&mut w, &data[35_000..49_152]).unwrap();
    assert!(matches!(
        fs.write_chunk(&mut w, &data[0..1]),
        Err(LuksError::OutOfBounds)
    ));
    let ino = fs.finish_file(w, "/", "pieces.bin", 1, 2, 0).unwrap();
    assert!(ino >= 256);
    assert!(fs.active_batch().is_some());
    fs.commit_active_batch().unwrap();
    assert!(fs.active_batch().is_none());
    let (_, got) = content(again(fs), "/pieces.bin");
    assert_eq!(got, data);
}

#[test]
fn write_file_across_fragmented_extents_in_file_writer() {
    let data_at = (13_631_488u64, 8_388_608u64, 9 * MIB);
    let mut fs = Btrfs::mount(MemDevice::new(image_with(data_at))).unwrap();

    // Free space in three small ranges.
    let extent_tree = ExtentTree::read(&fs).expect("read extent tree");
    let mut allocator =
        FreeSpaceMap::from_extent_tree_and_chunk_map(&extent_tree, fs.chunk_map())
            .expect("derive allocator");
    let g = allocator
        .block_groups
        .iter()
        .position(|b| b.block_group.start == 13_631_488)
        .unwrap();
    allocator.block_groups[g].free_ranges = vec![
        FreeRange { start: 16_777_216, length: 16_384 },
        FreeRange { start: 17_825_792, length: 32_768 },
        FreeRange { start: 18_874_368, length: 16_384 },
    ];
    allocator.block_groups[g].total_free_bytes = 16_384 + 32_768 + 16_384;

    let total_file_size = 49_152u64;
    let sector_size = fs.superblock().sector_size;
    let mut data_runs = Vec::new();
    let mut allocated = 0u64;
    while allocated < total_file_size {
        let remaining = total_file_size - allocated;
        let (bytenr, chunk_len) = allocator
            .allocate_data_chunk(remaining, sector_size)
            .expect("allocate chunk");
        data_runs.push((bytenr, chunk_len));
        allocated += chunk_len;
    }
    assert_eq!(data_runs.len(), 2);
    assert_eq!(data_runs[0], (17_825_792, 32_768));
    assert_eq!(data_runs[1], (16_777_216, 16_384));

    let mut writer = BtrfsFileWriter {
        size: total_file_size,
        written_bytes: 0,
        data_runs,
        checksums: Vec::new(),
        allocator,
        is_streaming: false,
        tail_buf: Vec::new(),
    };
    let payload = pattern(total_file_size as usize, 7);
    fs.write_chunk(&mut writer, &payload[0..10_000]).expect("write chunk 1");
    assert_eq!(writer.written_bytes, 10_000);
    fs.write_chunk(&mut writer, &payload[10_000..35_000])
        .expect("write chunk 2 (spanning boundary)");
    assert_eq!(writer.written_bytes, 35_000);
    fs.write_chunk(&mut writer, &payload[35_000..49_152]).expect("write chunk 3");
    assert_eq!(writer.written_bytes, 49_152);

    let ino = fs
        .finish_file(writer, "/", "fragmented_test.bin", 1, 2, 0)
        .expect("finish file");
    assert!(ino >= 256);
    fs.commit_active_batch().expect("commit");

    let found = fs
        .resolve_no_follow(fs.fs_tree(), "/fragmented_test.bin")
        .expect("resolve");
    let extents: Vec<FileExtent> = fs
        .items_of_type(found.tree.bytenr, found.inode.objectid, EXTENT_DATA_KEY)
        .expect("file extents")
        .iter()
        .map(|i| FileExtent::parse(i.key.offset, &i.data).unwrap())
        .collect();
    assert_eq!(extents.len(), 2);
    assert_eq!(extents[0].file_offset, 0);
    assert_eq!(extents[0].disk_bytenr, 17_825_792);
    assert_eq!(extents[0].num_bytes, 32_768);
    assert_eq!(extents[0].kind, ExtentKind::Regular);
    assert_eq!(extents[1].file_offset, 32_768);
    assert_eq!(extents[1].disk_bytenr, 16_777_216);
    assert_eq!(extents[1].num_bytes, 16_384);
    assert_eq!(extents[1].kind, ExtentKind::Regular);

    let (fs, readback) = content(fs, "/fragmented_test.bin");
    assert_eq!(readback, payload);
    let (_, readback_again) = content(again(fs), "/fragmented_test.bin");
    assert_eq!(readback_again, payload);
}

#[test]
fn a_streamed_file_grows_as_it_is_written() {
    let data = pattern(30_001, 11);
    let mut fs = fresh();
    let mut w = fs.begin_file_streaming(0).unwrap();
    assert!(w.is_streaming());
    for piece in data.chunks(777) {
        fs.write_chunk(&mut w, piece).unwrap();
    }
    assert_eq!(w.size(), 30_001);
    fs.finish_file(w, "/", "stream", 1, 2, 0).unwrap();
    fs.commit_active_batch().unwrap();
    let (_, got) = content(again(fs), "/stream");
    assert_eq!(got, data);
}

#[test]
fn several_files_go_into_one_transaction() {
    let mut fs = fresh();
    for i in 0..5usize {
        let data = pattern(6000 + i, i);
        let mut w = fs.begin_file(data.len() as u64, 0).unwrap();
        fs.write_chunk(&mut w, &data).unwrap();
        fs.finish_file(w, "/", &format!("f{i}"), 1, 2, 0).unwrap();
    }
    assert_eq!(fs.superblock().generation, GENERATION);
    fs.commit_active_batch().unwrap();
    assert_eq!(fs.superblock().generation, GENERATION + 1);
    let mut fs = again(fs);
    for i in 0..5usize {
        let (back, got) = content(fs, &format!("/f{i}"));
        assert_eq!(got, pattern(6000 + i, i));
        fs = back;
    }
}

#[test]
fn a_full_batch_is_committed_by_itself() {
    let mut fs = fresh();
    let mut w = fs.begin_file(10, 0).unwrap();
    fs.write_chunk(&mut w, &[1; 10]).unwrap();
    fs.finish_file(w, "/", "old enough", 1, 2, 1_000_000_000).unwrap();
    assert_eq!(fs.superblock().generation, GENERATION + 1);
    assert!(!fs.active_batch().unwrap().has_uncommitted_files());
    assert!(present(&again(fs), "/old enough"));
}

#[test]
fn one_writer_at_a_time() {
    let mut fs = fresh();
    let w = fs.begin_file(100, 0).unwrap();
    assert!(matches!(fs.begin_file(100, 0), Err(LuksError::WriterBusy)));
    assert!(matches!(fs.begin_file_streaming(0), Err(LuksError::WriterBusy)));
    assert!(matches!(fs.commit_active_batch(), Err(LuksError::CorruptFs(_))));
    fs.abandon_file(w, 0);
    fs.create_file("/", "after", 1, 0).unwrap();
    assert_eq!(names(&again(fs), "/"), vec!["after".to_string()]);
}

#[test]
fn an_unfinished_file_is_refused() {
    let mut fs = fresh();
    let w = fs.begin_file(100, 0).unwrap();
    assert!(matches!(
        fs.finish_file(w, "/", "short", 1, 2, 0),
        Err(LuksError::OutOfBounds)
    ));
    assert!(!present(&fs, "/short"));
    assert!(fs.discard_active_batch());
    assert!(!fs.discard_active_batch());
}

#[test]
fn a_discarded_batch_leaves_no_file() {
    let mut fs = fresh();
    let mut w = fs.begin_file(10, 0).unwrap();
    fs.write_chunk(&mut w, &[1; 10]).unwrap();
    fs.finish_file(w, "/", "lost", 1, 2, 0).unwrap();
    assert!(fs.discard_active_batch());
    assert!(!present(&again(fs), "/lost"));
}

#[test]
fn a_new_chunk_is_taken_when_data_space_runs_out() {
    let mut fs = fresh();
    let data = pattern(3 * MIB as usize / 2, 5);
    fs.create_file_with_data("/", "big", &data, 1, 2, 0).unwrap();
    let fs = again(fs);
    assert_eq!(fs.chunk_map().chunks().len(), 4);
    let (_, got) = content(fs, "/big");
    assert_eq!(got, data);
}

#[test]
fn a_full_device_is_reported() {
    let mut fs = fresh();
    assert!(matches!(
        fs.begin_file(64 * MIB, 0),
        Err(LuksError::FilesystemFull)
    ));
    let mut w = fs.begin_file_streaming(0).unwrap();
    let piece = vec![0u8; 32 * MIB as usize];
    assert!(matches!(
        fs.write_chunk(&mut w, &piece),
        Err(LuksError::FilesystemFull)
    ));
}

#[test]
fn deleted_data_is_free_again() {
    let mut fs = fresh();
    let before = FreeSpaceMap::read(&fs).unwrap().total_free_data();
    fs.create_file_with_data("/", "file", &pattern(100_000, 1), 1, 2, 0).unwrap();
    let during = FreeSpaceMap::read(&fs).unwrap().total_free_data();
    assert_eq!(before - during, 102_400);
    fs.delete_file("/file", 1, 2).unwrap();
    let fs = again(fs);
    assert_eq!(FreeSpaceMap::read(&fs).unwrap().total_free_data(), before);
    let csums = fs.tree_root(CSUM_TREE_OBJECTID).unwrap();
    assert!(fs
        .items_of_type(csums.bytenr, EXTENT_CSUM_OBJECTID, EXTENT_CSUM_KEY)
        .unwrap()
        .is_empty());
}

#[test]
fn a_log_or_a_second_device_forbids_writing() {
    let mut disk = image();
    disk[0x1_0060..0x1_0068].copy_from_slice(&1u64.to_le_bytes());
    let csum = crc32c(&disk[0x1_0020..0x1_1000]);
    disk[0x1_0000..0x1_0004].copy_from_slice(&csum.to_le_bytes());
    let mut fs = Btrfs::mount(MemDevice::new(disk)).unwrap();
    assert!(matches!(
        fs.create_file("/", "a", 1, 0),
        Err(LuksError::FsNeedsRecovery)
    ));
    let mut disk = image();
    disk[0x1_0088] = 2;
    let csum = crc32c(&disk[0x1_0020..0x1_1000]);
    disk[0x1_0000..0x1_0004].copy_from_slice(&csum.to_le_bytes());
    let mut fs = Btrfs::mount(MemDevice::new(disk)).unwrap();
    assert!(matches!(
        fs.create_file("/", "a", 1, 0),
        Err(LuksError::UnsupportedFsFeature(_))
    ));
}

#[test]
fn a_damaged_superblock_or_node_is_noticed() {
    let mut disk = image();
    disk[0x1_0100] ^= 1;
    assert!(Btrfs::mount(MemDevice::new(disk)).is_err());
    let mut disk = image();
    disk[physical(METADATA.0) + 200] ^= 1;
    assert!(matches!(
        Btrfs::mount(MemDevice::new(disk)),
        Err(LuksError::CorruptFs(_))
    ));
}

#[test]
fn names_in_a_listing_are_decoded() {
    let mut fs = fresh();
    fs.create_file("/", "grüße", 1, 0).unwrap();
    assert_eq!(names(&again(fs), "/"), vec!["grüße".to_string()]);
}

/// A device that fails for good after some writes and flushes.
struct Fading {
    bytes: Vec<u8>,
    left: usize,
}

impl ReadAt for Fading {
    fn read_at(&self, offset: u64, len: usize) -> Result<Vec<u8>> {
        self.bytes.read_at(offset, len)
    }

    fn len(&self) -> Option<u64> {
        Some(self.bytes.len() as u64)
    }
}

impl WriteAt for Fading {
    fn write_at(&mut self, offset: u64, data: &[u8]) -> Result<()> {
        let at = offset as usize;
        if self.left == 0 || at + data.len() > self.bytes.len() {
            return Err(LuksError::Io);
        }
        self.left -= 1;
        self.bytes[at..at + data.len()].copy_from_slice(data);
        Ok(())
    }

    fn flush(&mut self) -> Result<()> {
        if self.left == 0 {
            return Err(LuksError::Io);
        }
        self.left -= 1;
        Ok(())
    }
}

#[test]
fn a_commit_that_breaks_off_leaves_the_volume_whole() {
    let mut fs = fresh();
    fs.create_file_with_data("/", "old", &pattern(9000, 3), 1, 0, 0).unwrap();
    let before = fs.into_device().into_bytes();
    let mut left: usize = 0;
    loop {
        let device = Fading { bytes: before.clone(), left };
        let mut fs = Btrfs::mount(device).unwrap();
        let done = fs.create_directory("/", "new", 2, 0).is_ok();
        let after = fs.into_device().bytes;
        let fs = Btrfs::mount(MemDevice::new(after)).unwrap();
        assert!(present(&fs, "/old"));
        if done {
            assert!(present(&fs, "/new"));
        }
        let (_, data) = content(fs, "/old");
        assert_eq!(data, pattern(9000, 3));
        if done {
            assert!(left > 5);
            return;
        }
        left += 1;
    }
}

/// A device that notes what it completes, and whose first superblock can go bad.
struct Noting {
    bytes: Vec<u8>,
    done: Vec<(usize, Vec<u8>)>,
    left: usize,
    bad: Rc<Cell<bool>>,
}

impl ReadAt for Noting {
    fn read_at(&self, offset: u64, len: usize) -> Result<Vec<u8>> {
        let mut out = self.bytes.read_at(offset, len)?;
        if self.bad.get() && offset == 0x1_0000 {
            out[0x40] ^= 1;
        }
        Ok(out)
    }

    fn len(&self) -> Option<u64> {
        Some(self.bytes.len() as u64)
    }
}

impl WriteAt for Noting {
    fn write_at(&mut self, offset: u64, data: &[u8]) -> Result<()> {
        let at = offset as usize;
        if self.left == 0 || at + data.len() > self.bytes.len() {
            return Err(LuksError::Io);
        }
        self.left -= 1;
        self.bytes[at..at + data.len()].copy_from_slice(data);
        self.done.push((at, data.to_vec()));
        Ok(())
    }

    fn flush(&mut self) -> Result<()> {
        if self.left == 0 {
            return Err(LuksError::Io);
        }
        self.left -= 1;
        Ok(())
    }
}

#[test]
fn a_failed_commit_did_a_leading_part() {
    let before = image();
    let run = |left: usize| {
        let bad = Rc::new(Cell::new(false));
        let device = Noting { bytes: before.clone(), done: Vec::new(), left, bad };
        let mut fs = Btrfs::mount(device).unwrap();
        let r = fs.create_file("/", "new", 2, 0);
        (r.is_ok(), fs.into_device())
    };
    let (done, all) = run(usize::MAX);
    assert!(done);
    let mut steps: usize = 0;
    loop {
        let (done, part) = run(steps);
        assert!(part.done.len() <= all.done.len());
        assert_eq!(part.done, all.done[..part.done.len()].to_vec());
        let mut expected = before.clone();
        for (at, data) in &part.done {
            expected[*at..*at + data.len()].copy_from_slice(data);
        }
        assert!(part.bytes == expected);
        if done {
            assert_eq!(part.done.len(), all.done.len());
            return;
        }
        steps += 1;
    }
}

#[test]
fn a_commit_over_a_bad_superblock_writes_nothing() {
    let bad = Rc::new(Cell::new(false));
    let device = Noting {
        bytes: image(),
        done: Vec::new(),
        left: usize::MAX,
        bad: bad.clone(),
    };
    let mut fs = Btrfs::mount(device).unwrap();
    bad.set(true);
    assert!(matches!(fs.create_file("/", "new", 2, 0), Err(LuksError::CorruptFs(_))));
    assert!(fs.create_directory("/", "sub", 2, 0).is_err());
    let device = fs.into_device();
    assert!(device.done.is_empty());
    assert!(device.bytes == image());
}

#[test]
fn the_used_counters_are_the_sums_of_the_extents() {
    let mut fs = fresh();
    for i in 0..90 {
        let data = pattern(1 + 1000 * (i % 13), i);
        fs.create_file_with_data("/", &format!("file number {i}"), &data, 1, 0, 0).unwrap();
    }
    for i in 0..90 {
        if i % 4 != 0 {
            fs.delete_file(&format!("/file number {i}"), 2, 0).unwrap();
        }
    }
    let mut w = fs.begin_file(30_000, 0).unwrap();
    fs.write_chunk(&mut w, &pattern(30_000, 9)).unwrap();
    fs.finish_file(w, "/", "streamed", 1, 2, 0).unwrap();
    fs.commit_active_batch().unwrap();
    let fs = again(fs);
    let tree = ExtentTree::read(&fs).unwrap();
    assert_eq!(tree.block_groups.len(), 3);
    let mut total: u64 = 0;
    for g in &tree.block_groups {
        let inside: u64 = tree
            .extents
            .iter()
            .filter(|e| g.start <= e.bytenr && e.bytenr < g.start + g.length)
            .map(|e| e.length)
            .sum();
        assert_eq!(g.used, inside);
        total += inside;
    }
    assert_eq!(fs.superblock().bytes_used, total);
}

/// The blocks of a tree.
fn blocks(fs: &Btrfs<MemDevice>, at: u64, out: &mut Vec<u64>) {
    out.push(at);
    let node = fs.read_node(at).unwrap();
    for p in &node.ptrs {
        blocks(fs, p.blockptr, out);
    }
}

#[test]
fn every_block_stays_on_record_and_none_is_free() {
    let mut fs = fresh();
    for i in 0..60 {
        fs.create_file("/", &format!("file number {i}"), 1, 0).unwrap();
    }
    for i in 0..60 {
        if i % 3 != 0 {
            fs.delete_file(&format!("/file number {i}"), 2, 0).unwrap();
        }
    }
    fs.create_file_with_data("/", "data", &pattern(70_000, 1), 3, 0, 0).unwrap();
    fs.rename("/", "file number 0", "/", "first", 4, 0).unwrap();
    let fs = again(fs);
    let tree = ExtentTree::read(&fs).unwrap();
    let space = FreeSpaceMap::from_extent_tree_and_chunk_map(&tree, fs.chunk_map()).unwrap();
    let mut used = Vec::new();
    blocks(&fs, fs.superblock().root, &mut used);
    blocks(&fs, fs.fs_tree().bytenr, &mut used);
    blocks(&fs, fs.tree_root(EXTENT_TREE_OBJECTID).unwrap().bytenr, &mut used);
    blocks(&fs, fs.tree_root(CSUM_TREE_OBJECTID).unwrap().bytenr, &mut used);
    let count = used.len();
    used.sort_unstable();
    used.dedup();
    assert_eq!(used.len(), count);
    for at in used {
        assert!(tree.extents.iter().any(|e| e.bytenr == at && e.is_tree_block));
        for b in &space.block_groups {
            assert!(!b.free_ranges.iter().any(|r| r.start <= at && at < r.start + r.length));
        }
    }
    for b in &space.block_groups {
        assert_eq!(b.total_allocated_bytes, b.block_group.used);
    }
}

#[test]
fn deleting_a_file_keeps_the_checksums_of_its_neighbour() {
    let mut fs = fresh();
    fs.create_file_with_data("/", "a", &pattern(4096, 1), 1, 0, 0).unwrap();
    fs.create_file_with_data("/", "b", &pattern(4096, 2), 1, 0, 0).unwrap();
    // One item for the checksums of both files.
    let at = fs.tree_root(CSUM_TREE_OBJECTID).unwrap().bytenr;
    let mut l = Leaf::from_node(&fs.read_node(at).unwrap(), CsumType::Crc32c).unwrap();
    assert_eq!(l.items.len(), 2);
    let (first, second) = (l.items[0].key, l.items[1].key);
    assert_eq!(first.offset + SECTOR, second.offset);
    let mut both = l.items[0].data.clone();
    both.extend_from_slice(&l.items[1].data);
    l.delete_item(&second).unwrap();
    l.delete_item(&first).unwrap();
    l.insert_item(first, both, NODE).unwrap();
    let raw = l.emit(NODE).unwrap();
    let mut disk = fs.into_device().into_bytes();
    disk[physical(at)..physical(at) + NODE as usize].copy_from_slice(&raw);
    let mut fs = Btrfs::mount(MemDevice::new(disk)).unwrap();
    fs.delete_file("/a", 2, 0).unwrap();
    let fs = again(fs);
    let at = fs.tree_root(CSUM_TREE_OBJECTID).unwrap().bytenr;
    let items = fs.items_of_type(at, EXTENT_CSUM_OBJECTID, EXTENT_CSUM_KEY).unwrap();
    assert_eq!(items.len(), 1);
    assert_eq!((items[0].key.offset, items[0].data.len()), (second.offset, 4));
    let (_, data) = content(fs, "/b");
    assert_eq!(data, pattern(4096, 2));
}

#[test]
fn a_commit_no_longer_vouches_for_the_free_space_tree() {
    let mut disk = image();
    disk[0x1_00b4..0x1_00bc].copy_from_slice(&3u64.to_le_bytes());
    let csum = crc32c(&disk[0x1_0020..0x1_1000]);
    disk[0x1_0000..0x1_0004].copy_from_slice(&csum.to_le_bytes());
    let mut fs = Btrfs::mount(MemDevice::new(disk)).unwrap();
    assert_eq!(fs.superblock().compat_ro_flags, 3);
    fs.create_file("/", "file", 1, 0).unwrap();
    assert_eq!(fs.superblock().compat_ro_flags, 1);
    assert_eq!(fs.superblock().generation, GENERATION + 1);
    let disk = fs.into_device().into_bytes();
    assert_eq!(disk[0x1_00b4..0x1_00bc], 1u64.to_le_bytes());
    assert_eq!(disk[0x1_0048..0x1_0050], (GENERATION + 1).to_le_bytes());
    assert!(present(&Btrfs::mount(MemDevice::new(disk)).unwrap(), "/file"));
}

#[test]
fn space_for_a_file_is_set_aside_in_whole_sectors() {
    let mut fs = fresh();
    let w = fs.begin_file(10_000, 0).unwrap();
    let mut sum = 0;
    for (i, (at, len)) in w.data_runs().iter().enumerate() {
        assert_eq!((at % SECTOR, len % SECTOR), (0, 0));
        for (b, n) in &w.data_runs()[..i] {
            assert!(b + n <= *at || at + len <= *b);
        }
        sum += len;
    }
    assert_eq!(sum, 12_288);
    assert!(matches!(fs.begin_file(1, 0), Err(LuksError::WriterBusy)));
    assert!(matches!(fs.begin_file_streaming(0), Err(LuksError::WriterBusy)));
    fs.abandon_file(w, 0);
    assert!(fs.begin_file(1, 0).is_ok());
}

#[test]
fn pieces_leave_what_one_piece_leaves() {
    let data = pattern(13_000, 9);
    let mut fs = fresh();
    let mut one = fs.begin_file(13_000, 0).unwrap();
    fs.write_chunk(&mut one, &data).unwrap();
    let at = one.data_runs()[0].0;
    assert_eq!(one.checksums.len(), 4);
    for i in 0..4usize {
        let mut sector = data[i * 4096..13_000.min(i * 4096 + 4096)].to_vec();
        sector.resize(4096, 0);
        assert_eq!(one.checksums[i], (at + i as u64 * SECTOR, crc32c(&sector)));
    }
    let disk = fs.into_device().into_bytes();
    for k in [1usize, 4095, 4096, 5000, 8192, 12_999] {
        let mut fs = fresh();
        let mut w = fs.begin_file(13_000, 0).unwrap();
        fs.write_chunk(&mut w, &data[..k]).unwrap();
        fs.write_chunk(&mut w, &[]).unwrap();
        fs.write_chunk(&mut w, &data[k..]).unwrap();
        assert_eq!(w.checksums, one.checksums);
        assert_eq!(w.tail_buf, one.tail_buf);
        assert_eq!(w.written_bytes(), 13_000);
        assert_eq!(fs.into_device().into_bytes(), disk);
    }
}

#[test]
fn a_deletion_shrinks_the_directory_and_unlists_the_data() {
    let mut fs = fresh();
    fs.create_file_with_data("/", "stays", &pattern(5000, 1), 1, 0, 0).unwrap();
    fs.create_file_with_data("/", "goes", &pattern(9000, 2), 1, 0, 0).unwrap();
    let size = |fs: &Btrfs<MemDevice>| {
        fs.resolve_no_follow(fs.fs_tree(), "/").unwrap().inode.size
    };
    let before = size(&fs);
    let generation = fs.superblock().generation;
    let extents = |fs: &Btrfs<MemDevice>| ExtentTree::read(fs).unwrap().extents.len();
    let goes = fs.resolve_no_follow(fs.fs_tree(), "/goes").unwrap().inode.objectid;
    let at = fs.items_of_type(fs.fs_tree().bytenr, goes, EXTENT_DATA_KEY).unwrap();
    let e = FileExtent::parse(0, &at[0].data).unwrap();
    assert!(extents(&fs) > 0);
    fs.delete_file("/goes", 3, 4).unwrap();
    let fs = again(fs);
    assert_eq!(size(&fs), before - 8);
    assert_eq!(fs.superblock().generation, generation + 1);
    let t = ExtentTree::read(&fs).unwrap();
    assert!(t.extents.iter().all(|x| x.bytenr != e.disk_bytenr));
    assert!(fs.items_of_object(fs.fs_tree().bytenr, goes).unwrap().is_empty());
    let (_, got) = content(fs, "/stays");
    assert_eq!(got, pattern(5000, 1));
}

#[test]
fn a_rename_keeps_what_it_has_nothing_to_do_with() {
    let mut fs = fresh();
    fs.create_file_with_data("/", "a", &pattern(5000, 1), 1, 0, 0).unwrap();
    fs.create_file_with_data("/", "b", &pattern(9000, 2), 1, 0, 0).unwrap();
    fs.create_file_with_data("/", "c", &pattern(100, 3), 1, 0, 0).unwrap();
    let a = fs.resolve_no_follow(fs.fs_tree(), "/a").unwrap().inode;
    let b = fs.resolve_no_follow(fs.fs_tree(), "/b").unwrap().inode;
    let c = fs.resolve_no_follow(fs.fs_tree(), "/c").unwrap().inode;
    fs.rename("/", "a", "/", "b", 2, 0).unwrap();
    let fs = again(fs);
    assert_eq!(fs.resolve_no_follow(fs.fs_tree(), "/b").unwrap().inode, a);
    assert_eq!(fs.resolve_no_follow(fs.fs_tree(), "/c").unwrap().inode, c);
    assert!(fs.items_of_object(fs.fs_tree().bytenr, b.objectid).unwrap().is_empty());
    let mut all = names(&fs, "/");
    all.sort();
    assert_eq!(all, vec!["b".to_string(), "c".to_string()]);
}

#[test]
fn written_files_have_their_sizes_and_times() {
    for n in [0usize, 5000] {
        let mut fs = fresh();
        fs.create_file("/", "file", 1, 0).unwrap();
        fs.write_file("/file", &pattern(n, 4), 77, 88).unwrap();
        let fs = again(fs);
        let at = fs.resolve_no_follow(fs.fs_tree(), "/file").unwrap().inode;
        assert_eq!(at.size, n as u64);
        assert_eq!(at.nbytes, (n as u64).div_ceil(SECTOR) * SECTOR);
        let key = Key::new(at.objectid, INODE_ITEM_KEY, 0);
        let d = fs.find_item(fs.fs_tree().bytenr, &key).unwrap().unwrap();
        for o in [124, 136] {
            assert_eq!(d[o..o + 8], 77u64.to_le_bytes());
            assert_eq!(d[o + 8..o + 12], 88u32.to_le_bytes());
        }
    }
}

#[test]
fn a_leaf_is_changed_by_any_function() {
    let fs = fresh();
    let key = Key::new(256, INODE_ITEM_KEY, 0);
    let none = BlockMap::new();
    let root = fs.fs_tree();
    let mut free = FreeSpaceMap::read(&fs).unwrap();
    let before = free.clone();
    let failed = cow_tree_mutate(
        &fs,
        &none,
        root.bytenr,
        root.level,
        FS_TREE_OBJECTID,
        &key,
        11,
        &mut free,
        |_leaf| Err(LuksError::WriterBusy),
    );
    assert!(matches!(failed, Err(LuksError::WriterBusy)));
    assert_eq!(free, before);
    let r = cow_tree_mutate(
        &fs,
        &none,
        root.bytenr,
        root.level,
        FS_TREE_OBJECTID,
        &key,
        11,
        &mut free,
        |leaf| {
            let mut leaf = leaf;
            assert_eq!(leaf.items.len(), 2);
            leaf.items.reverse();
            leaf.items.truncate(1);
            Ok(leaf)
        },
    )
    .unwrap();
    assert_eq!((r.new_root_level, r.emitted_blocks.len()), (0, 1));
    assert_eq!(r.freed, vec![(root.bytenr, 0)]);
    assert_eq!(r.allocated, vec![(r.new_root_bytenr, 0)]);
    let n = Node::parse(
        &r.emitted_blocks[0].1,
        r.new_root_bytenr,
        CsumType::Crc32c,
        &UUID,
    )
    .unwrap();
    assert_eq!((n.items.len(), n.generation), (1, 11));
    assert_eq!(n.items[0].key, Key::new(256, INODE_REF_KEY, 256));
    let empty = cow_tree_mutate(
        &fs,
        &none,
        root.bytenr,
        root.level,
        FS_TREE_OBJECTID,
        &key,
        11,
        &mut free,
        |leaf| {
            let mut leaf = leaf;
            leaf.items.clear();
            Ok(leaf)
        },
    )
    .unwrap();
    assert_eq!((empty.new_root_level, empty.emitted_blocks.len()), (0, 1));
}

#[test]
fn a_superblock_with_a_sha256_checksum_is_detected() {
    let mut disk = image();
    disk[0x1_00c4..0x1_00c6].copy_from_slice(&2u16.to_le_bytes());
    assert!(detect(&MemDevice::new(disk.clone())).is_err());
    let sum = sha256(&disk[0x1_0020..0x1_1000]);
    disk[0x1_0000..0x1_0020].copy_from_slice(&sum);
    assert!(matches!(detect(&MemDevice::new(disk.clone())), Ok(FsKind::Btrfs)));
    disk[0x1_00c4..0x1_00c6].copy_from_slice(&1u16.to_le_bytes());
    assert!(detect(&MemDevice::new(disk)).is_err());
}

/// The same volume, with SHA-256 checksums.
fn sha256_image() -> Vec<u8> {
    let mut disk = image();
    let node = NODE as usize;
    for at in [
        SYSTEM.0,
        METADATA.0,
        METADATA.0 + 4096,
        METADATA.0 + 2 * 4096,
        METADATA.0 + 3 * 4096,
        METADATA.0 + 4 * 4096,
    ] {
        let p = physical(at);
        let sum = sha256(&disk[p + 32..p + node]);
        disk[p..p + 32].copy_from_slice(&sum);
    }
    disk[0x1_00c4..0x1_00c6].copy_from_slice(&2u16.to_le_bytes());
    let sum = sha256(&disk[0x1_0020..0x1_1000]);
    disk[0x1_0000..0x1_0020].copy_from_slice(&sum);
    disk
}

#[test]
fn a_volume_with_sha256_checksums_is_read_and_written() {
    let mut fs = Btrfs::mount(MemDevice::new(sha256_image())).unwrap();
    assert_eq!(fs.superblock().csum_type, CsumType::Sha256);
    fs.create_file("/", "file", 1, 0).unwrap();
    let data = pattern(5000, 6);
    fs.write_file("/file", &data, 2, 0).unwrap();
    let fs = again(fs);
    assert_eq!(fs.resolve_no_follow(fs.fs_tree(), "/file").unwrap().inode.size, 5000);
    let at = fs.tree_root(CSUM_TREE_OBJECTID).unwrap().bytenr;
    let sums = fs.items_of_type(at, EXTENT_CSUM_OBJECTID, EXTENT_CSUM_KEY).unwrap();
    assert_eq!(sums.len(), 1);
    let mut last = data[4096..].to_vec();
    last.resize(4096, 0);
    let mut want = sha256(&data[..4096]);
    want.extend_from_slice(&sha256(&last));
    assert_eq!(sums[0].data, want);
}
