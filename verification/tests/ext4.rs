//! Reading ext4: a small filesystem is built in memory.

use luks_core::error::LuksError;
use luks_core::fs::ext4::Ext4;
use luks_core::fs::FileType;

const BLOCK: usize = 1024;
const TABLE: usize = 5;
const INODE: usize = 256;

fn put16(d: &mut [u8], at: usize, x: u16) {
    d[at..at + 2].copy_from_slice(&x.to_le_bytes());
}

fn put32(d: &mut [u8], at: usize, x: u32) {
    d[at..at + 4].copy_from_slice(&x.to_le_bytes());
}

fn inode(disk: &mut [u8], ino: usize, mode: u16, size: u32, flags: u32, area: &[u8]) {
    let at = TABLE * BLOCK + (ino - 1) * INODE;
    let d = &mut disk[at..at + INODE];
    put16(d, 0, mode);
    put16(d, 2, 1000);
    put32(d, 4, size);
    put32(d, 16, 77);
    put16(d, 24, 100);
    put16(d, 26, 1);
    put32(d, 32, flags);
    d[40..40 + area.len()].copy_from_slice(area);
}

/// An inode area that maps `runs` (first block of the file, length, block on
/// the device).
fn extents(runs: &[(u32, u16, u32)]) -> Vec<u8> {
    let mut a = vec![0u8; 60];
    put16(&mut a, 0, 0xF30A);
    put16(&mut a, 2, runs.len() as u16);
    put16(&mut a, 4, 4);
    for (i, r) in runs.iter().enumerate() {
        put32(&mut a, 12 + 12 * i, r.0);
        put16(&mut a, 12 + 12 * i + 4, r.1);
        put32(&mut a, 12 + 12 * i + 8, r.2);
    }
    a
}

fn entry(block: &mut [u8], at: usize, ino: u32, len: usize, kind: u8, name: &[u8]) {
    put32(block, at, ino);
    put16(block, at + 4, len as u16);
    block[at + 6] = name.len() as u8;
    block[at + 7] = kind;
    block[at + 8..at + 8 + name.len()].copy_from_slice(name);
}

fn image() -> Vec<u8> {
    let mut disk = vec![0u8; 64 * BLOCK];
    {
        let sb = &mut disk[1024..2048];
        put32(sb, 0, 32);
        put32(sb, 4, 64);
        put32(sb, 20, 1);
        put32(sb, 24, 0);
        put32(sb, 32, 8192);
        put32(sb, 40, 32);
        put16(sb, 56, 0xEF53);
        put32(sb, 76, 1);
        put16(sb, 88, INODE as u16);
        put32(sb, 96, 0x42);
        sb[104..120].copy_from_slice(&[3; 16]);
        sb[120..128].copy_from_slice(b"my label");
    }
    put32(&mut disk, 2 * BLOCK + 8, TABLE as u32);
    // The root directory, a subdirectory and their entries.
    inode(&mut disk, 2, 0o40755, BLOCK as u32, 0x80000, &extents(&[(0, 1, 20)]));
    inode(&mut disk, 12, 0o40700, BLOCK as u32, 0x80000, &extents(&[(0, 1, 21)]));
    {
        let b = &mut disk[20 * BLOCK..21 * BLOCK];
        entry(b, 0, 2, 12, 2, b".");
        entry(b, 12, 2, 12, 2, b"..");
        entry(b, 24, 12, 12, 2, b"sub");
        entry(b, 36, 13, 16, 1, b"file");
        entry(b, 52, 14, 16, 7, b"link");
        entry(b, 68, 15, 16, 1, b"old");
        entry(b, 84, 0, 16, 1, b"gone");
        entry(b, 100, 16, 16, 7, b"loop");
        entry(b, 116, 17, BLOCK - 116, 1, b"b\xFFd");
    }
    {
        let b = &mut disk[21 * BLOCK..22 * BLOCK];
        entry(b, 0, 12, 12, 2, b".");
        entry(b, 12, 2, 12, 2, b"..");
        entry(b, 24, 13, BLOCK - 24, 1, b"same");
    }
    // A file with a hole: blocks 0 and 2.
    inode(&mut disk, 13, 0o100644, 2500, 0x80000, &extents(&[(0, 1, 30), (2, 1, 31)]));
    for i in 0..BLOCK {
        disk[30 * BLOCK + i] = (i % 251) as u8;
        disk[31 * BLOCK + i] = (i % 7) as u8;
    }
    // Links whose targets are in the inode.
    inode(&mut disk, 14, 0o120777, 8, 0, b"sub/same");
    inode(&mut disk, 16, 0o120777, 4, 0, b"loop");
    // A file mapped by block numbers, the last of them behind an indirect block.
    let mut area = vec![0u8; 60];
    for i in 0..12 {
        put32(&mut area, 4 * i, 40 + i as u32);
    }
    put32(&mut area, 48, 60);
    inode(&mut disk, 15, 0o100600, 13 * BLOCK as u32, 0, &area);
    put32(&mut disk, 60 * BLOCK, 61);
    for i in 0..12 {
        disk[(40 + i) * BLOCK] = i as u8 + 1;
    }
    disk[61 * BLOCK] = 13;
    inode(&mut disk, 17, 0o100600, 0, 0x80000, &extents(&[]));
    disk
}

#[test]
fn the_superblock_is_decoded() {
    let fs = Ext4::mount(image()).unwrap();
    assert_eq!(fs.block_size(), 1024);
    assert_eq!(fs.volume_name(), "my label");
    assert_eq!(fs.uuid(), [3; 16]);
    assert_eq!(fs.superblock().inodes_count, 32);
}

#[test]
fn directories_are_listed() {
    let fs = Ext4::mount(image()).unwrap();
    let names: Vec<String> = fs.list_dir("/").unwrap().into_iter().map(|e| e.name).collect();
    assert_eq!(names, vec!["sub", "file", "link", "old", "loop", "b\u{FFFD}d"]);
    let sub = fs.list_dir("/sub").unwrap();
    assert_eq!(sub.len(), 1);
    assert_eq!(sub[0].name, "same");
    assert_eq!(sub[0].inode, 13);
    assert_eq!(sub[0].file_type, FileType::Regular);
    assert!(matches!(fs.list_dir("/file"), Err(LuksError::NotADirectory(_))));
}

#[test]
fn a_file_with_a_hole_is_read() {
    let fs = Ext4::mount(image()).unwrap();
    let d = fs.read_file("/file").unwrap();
    assert_eq!(d.len(), 2500);
    assert_eq!(d[250], 250);
    assert_eq!(d[1023], (1023 % 251) as u8);
    assert!(d[1024..2048].iter().all(|b| *b == 0));
    assert_eq!(d[2048 + 13], 6);
    let i = fs.resolve("/file").unwrap();
    let mut buf = [9u8; 100];
    assert_eq!(fs.read_inode_data(&i, 2040, &mut buf).unwrap(), 100);
    assert_eq!(buf.to_vec(), d[2040..2140].to_vec());
    let mut buf = [9u8; 100];
    assert_eq!(fs.read_inode_data(&i, 2490, &mut buf).unwrap(), 10);
    assert_eq!(buf[..10].to_vec(), d[2490..2500].to_vec());
    assert!(buf[10..].iter().all(|b| *b == 9));
    assert_eq!(fs.read_inode_data(&i, 2500, &mut buf).unwrap(), 0);
    assert!(buf[10..].iter().all(|b| *b == 9));
}

#[test]
fn a_read_in_two_parts_gives_the_same() {
    let fs = Ext4::mount(image()).unwrap();
    for path in ["/file", "/old"] {
        let i = fs.resolve(path).unwrap();
        let mut whole = vec![0u8; 1800];
        assert_eq!(fs.read_inode_data(&i, 600, &mut whole).unwrap(), 1800);
        for k in [0usize, 1, 424, 425, 1448, 1799, 1800] {
            let mut parts = vec![0u8; 1800];
            let (a, b) = parts.split_at_mut(k);
            assert_eq!(fs.read_inode_data(&i, 600, a).unwrap(), k);
            assert_eq!(fs.read_inode_data(&i, 600 + k as u64, b).unwrap(), 1800 - k);
            assert_eq!(parts, whole);
        }
    }
}

#[test]
fn indirect_blocks_are_followed() {
    let fs = Ext4::mount(image()).unwrap();
    let d = fs.read_file("/old").unwrap();
    assert_eq!(d.len(), 13 * BLOCK);
    for i in 0..13 {
        assert_eq!(d[i * BLOCK], i as u8 + 1);
    }
}

#[test]
fn links_are_followed_and_read() {
    let fs = Ext4::mount(image()).unwrap();
    assert_eq!(fs.read_link("/link").unwrap(), "sub/same");
    assert_eq!(fs.resolve("/link").unwrap().number, 13);
    assert_eq!(fs.resolve_no_follow("/link").unwrap().number, 14);
    assert_eq!(fs.read_file("/link").unwrap(), fs.read_file("/file").unwrap());
    // A link at the end is followed once, one on the way until it ends.
    assert_eq!(fs.resolve("/loop").unwrap().number, 16);
    assert!(matches!(fs.resolve("/loop/x"), Err(LuksError::SymlinkLoop(_))));
    assert!(matches!(fs.resolve("/link/x"), Err(LuksError::NotADirectory(_))));
}

#[test]
fn a_link_into_itself_ends() {
    let mut disk = image();
    inode(&mut disk, 16, 0o120777, 6, 0, b"loop/x");
    let fs = Ext4::mount(disk).unwrap();
    assert!(matches!(fs.resolve("/loop/y"), Err(LuksError::SymlinkLoop(_))));
}

#[test]
fn paths_are_resolved() {
    let fs = Ext4::mount(image()).unwrap();
    assert_eq!(fs.resolve("/").unwrap().number, 2);
    assert_eq!(fs.resolve("//sub/./same").unwrap().number, 13);
    assert_eq!(fs.resolve("/sub/../file").unwrap().number, 13);
    assert!(matches!(fs.resolve("/nothing"), Err(LuksError::NotFound(_))));
    assert!(matches!(fs.resolve("/file/x"), Err(LuksError::NotADirectory(_))));
    assert!(matches!(fs.read_file("/sub"), Err(LuksError::IsADirectory(_))));
    let info = fs.file_info("/file").unwrap();
    assert_eq!((info.size, info.uid, info.gid), (2500, 1000, 100));
    assert_eq!(info.mtime, 77);
}

#[test]
fn what_cannot_be_read_is_refused() {
    let mut disk = image();
    disk[1024 + 56] = 0;
    assert!(matches!(Ext4::mount(disk), Err(LuksError::NotExt4(0xEF00))));
    let fs = Ext4::mount(image()).unwrap();
    assert!(matches!(fs.read_inode(0), Err(LuksError::BadInode(0))));
    assert!(matches!(fs.read_inode(33), Err(LuksError::BadInode(33))));
    let mut disk = image();
    disk[TABLE * BLOCK + 12 * INODE + 40] = 0;
    let fs = Ext4::mount(disk).unwrap();
    assert!(matches!(fs.read_file("/file"), Err(LuksError::BadExtentHeader(0xF300))));
    let mut disk = image();
    disk[TABLE * BLOCK + 12 * INODE + 42] = 9;
    let fs = Ext4::mount(disk).unwrap();
    assert!(matches!(fs.read_file("/file"), Err(LuksError::BadExtentTree(_))));
}
