//! Deciding which filesystem is on a volume, before it is mounted.
//!
//! A two-byte magic number turns up by accident, so an ext4 superblock also has
//! to make sense and, where it carries a checksum, match it. Filesystems that
//! are common but not supported are recognised by name.

use vstd::prelude::*;

use crate::bytes::{bytes_eq, copy_range, get_u16, get_u32, le16, le32};
use crate::device::{image_read, ReadAt};
use crate::error::{Fault, LuksError, Outcome, Result};
use crate::fs::btrfs::crc32c::{crc32c_seed, crc_feed};
use crate::fs::btrfs::superblock::{
    copies_possible, super_found, CopiesSeen, SuperV, Superblock as BtrfsSuperblock,
};
use crate::fs::ext4::volume::{
    block_bytes, block_size_of, join_halves, wide, EXT4_MAGIC, INCOMPAT_64BIT,
};

verus! {

/// Where an ext4 superblock is.
pub const EXT4_SUPERBLOCK_OFFSET: u64 = 1024;
/// Bytes of an ext4 superblock.
pub const EXT4_SUPERBLOCK_SIZE: usize = 1024;
/// The superblock carries a checksum.
pub const EXT4_RO_COMPAT_METADATA_CSUM: u32 = 0x0400;

/// Whether `b` is the superblock of an ext4 filesystem, on a device of `len`
/// bytes where that is known: the magic number is there, the geometry makes
/// sense and does not exceed the device by far, and the checksum matches where
/// there is one.
pub open spec fn ext4_valid(b: Seq<u8>, len: Option<u64>) -> bool {
    let rev1 = le32(b, 76) >= 1;
    let blocks = wide(
        le32(b, 4),
        if rev1 && le32(b, 96) & INCOMPAT_64BIT != 0 {
            le32(b, 336)
        } else {
            0
        },
    );
    &&& le16(b, 56) == EXT4_MAGIC
    &&& le32(b, 24) <= 6
    &&& le32(b, 0) != 0
    &&& blocks != 0
    &&& le32(b, 32) != 0
    &&& le32(b, 40) != 0
    &&& len matches Some(n) ==> blocks * block_bytes(le32(b, 24)) <= u64::MAX && blocks
        * block_bytes(le32(b, 24)) <= 2 * n
    &&& rev1 ==> le16(b, 88) >= 128
    &&& rev1 && le32(b, 100) & EXT4_RO_COMPAT_METADATA_CSUM != 0 ==> le32(b, 1020) == crc_feed(
        0xFFFF_FFFF,
        b.take(1020),
    )
}

/// Whether an ext4 filesystem is found; `seen` says whether the superblock
/// could be read.
pub open spec fn ext4_found(disk: Seq<u8>, len: Option<u64>, seen: bool) -> bool {
    seen && match image_read(disk, EXT4_SUPERBLOCK_OFFSET as int, EXT4_SUPERBLOCK_SIZE as int) {
        Ok(b) => ext4_valid(b, len),
        Err(_) => false,
    }
}

/// Whether the bytes at `at` of `b` are `want`.
pub open spec fn bytes_at(b: Seq<u8>, at: int, want: Seq<u8>) -> bool {
    b.subrange(at, at + want.len()) == want
}

/// The name of an unsupported filesystem with boot sector `b`.
pub open spec fn foreign_name(b: Seq<u8>) -> Option<Seq<char>> {
    if bytes_at(b, 0, seq![88u8, 70, 83, 66]) {
        Some("XFS"@)
    } else if bytes_at(b, 3, seq![78u8, 84, 70, 83, 32, 32, 32, 32]) {
        Some("NTFS"@)
    } else if bytes_at(b, 3, seq![69u8, 88, 70, 65, 84, 32, 32, 32]) {
        Some("exFAT"@)
    } else if b[510] == 0x55 && b[511] == 0xAA && (bytes_at(
        b,
        54,
        seq![70u8, 65, 84, 49, 50, 32, 32, 32],
    ) || bytes_at(b, 54, seq![70u8, 65, 84, 49, 54, 32, 32, 32]) || bytes_at(
        b,
        82,
        seq![70u8, 65, 84, 51, 50, 32, 32, 32],
    )) {
        Some("FAT32"@)
    } else {
        None
    }
}

/// The name of an unsupported filesystem on the device; `seen` says whether the
/// boot sector could be read.
pub open spec fn foreign_found(disk: Seq<u8>, seen: bool) -> Option<Seq<char>> {
    if !seen {
        None
    } else {
        match image_read(disk, 0, 512) {
            Ok(b) => foreign_name(b),
            Err(_) => None,
        }
    }
}

/// Which of the reads went through. Where the device fails, what was to be read
/// counts as absent.
pub struct Glances {
    pub copies: CopiesSeen,
    pub ext4: bool,
    pub boot: bool,
}

/// Whether the reads can have gone this way: on a steady device all go through.
pub open spec fn glances_possible(steady: bool, g: Glances) -> bool {
    copies_possible(steady, g.copies) && (steady ==> g.ext4 && g.boot)
}

/// The mathematical view of a [`DetectedFs`].
pub enum DetectedV {
    Ext4,
    Btrfs(SuperV),
}

/// The filesystem on a device. Two at once are not chosen between.
pub open spec fn fs_found(disk: Seq<u8>, len: Option<u64>, g: Glances) -> Outcome<DetectedV> {
    let ext4 = ext4_found(disk, len, g.ext4);
    match super_found(disk, g.copies) {
        Some(sb) => if ext4 {
            Err(Fault::AmbiguousFs)
        } else {
            Ok(DetectedV::Btrfs(sb))
        },
        None => if ext4 {
            Ok(DetectedV::Ext4)
        } else {
            match foreign_found(disk, g.boot) {
                Some(name) => Err(Fault::UnsupportedFs(name)),
                None => Err(Fault::UnknownFs),
            }
        },
    }
}

/// A kind of filesystem.
#[derive(Debug, Clone, Copy, PartialEq, Eq, Structural)]
pub enum FsKind {
    Ext4,
    Btrfs,
}

impl FsKind {
    /// The name of the filesystem.
    pub fn name(self) -> (r: &'static str)
        ensures
            r@ == match self {
                FsKind::Ext4 => "ext4"@,
                FsKind::Btrfs => "btrfs"@,
            },
    {
        match self {
            FsKind::Ext4 => "ext4",
            FsKind::Btrfs => "btrfs",
        }
    }
}

/// A filesystem that was found, with the superblock that was checked on the
/// way.
#[derive(Debug)]
pub enum DetectedFs {
    Ext4,
    Btrfs(BtrfsSuperblock),
}

impl View for DetectedFs {
    type V = DetectedV;

    open spec fn view(&self) -> DetectedV {
        match *self {
            DetectedFs::Ext4 => DetectedV::Ext4,
            DetectedFs::Btrfs(sb) => DetectedV::Btrfs(sb@),
        }
    }
}

/// The kind of a filesystem that was found.
pub open spec fn kind_of(d: DetectedV) -> FsKind {
    match d {
        DetectedV::Ext4 => FsKind::Ext4,
        DetectedV::Btrfs(_) => FsKind::Btrfs,
    }
}

impl From<DetectedFs> for FsKind {
    fn from(detected: DetectedFs) -> (r: Self) {
        match detected {
            DetectedFs::Ext4 => FsKind::Ext4,
            DetectedFs::Btrfs(_) => FsKind::Btrfs,
        }
    }
}

impl vstd::std_specs::convert::FromSpecImpl<DetectedFs> for FsKind {
    open spec fn obeys_from_spec() -> bool {
        true
    }

    open spec fn from_spec(detected: DetectedFs) -> Self {
        kind_of(detected@)
    }
}

fn check_ext4(b: &Vec<u8>, len: Option<u64>) -> (r: bool)
    requires
        b@.len() == 1024,
    ensures
        r == ext4_valid(b@, len),
{
    let d = b.as_slice();
    if get_u16(d, 56) != EXT4_MAGIC {
        return false;
    }
    let log: u32 = get_u32(d, 24);
    if log > 6 {
        return false;
    }
    let block_size: u64 = block_size_of(log) as u64;
    if get_u32(d, 0) == 0 {
        return false;
    }
    let rev1: bool = get_u32(d, 76) >= 1;
    let hi: u32 = if rev1 && get_u32(d, 96) & INCOMPAT_64BIT != 0 {
        get_u32(d, 336)
    } else {
        0
    };
    let blocks: u64 = join_halves(get_u32(d, 4), hi);
    if blocks == 0 {
        return false;
    }
    if get_u32(d, 32) == 0 || get_u32(d, 40) == 0 {
        return false;
    }
    if let Some(n) = len {
        match blocks.checked_mul(block_size) {
            None => {
                return false;
            },
            Some(bytes) => {
                if bytes > n.saturating_add(n) {
                    return false;
                }
            },
        }
    }
    if rev1 {
        if get_u16(d, 88) < 128 {
            return false;
        }
        if get_u32(d, 100) & EXT4_RO_COMPAT_METADATA_CSUM != 0 {
            let body = copy_range(d, 0, 1020);
            assert(body@ =~= b@.take(1020));
            if crc32c_seed(0xFFFF_FFFF, body.as_slice()) != get_u32(d, 1020) {
                return false;
            }
        }
    }
    true
}

fn detect_ext4<D: ReadAt>(device: &D) -> (r: bool)
    ensures
        exists|seen: bool|
            (device.steady() ==> seen) && r == #[trigger] ext4_found(
                device.contents(),
                device.known_len(),
                seen,
            ),
{
    match device.read_at(EXT4_SUPERBLOCK_OFFSET, EXT4_SUPERBLOCK_SIZE) {
        Err(_) => {
            assert(!ext4_found(device.contents(), device.known_len(), false));
            assert(device.steady() ==> !ext4_found(device.contents(), device.known_len(), true));
            false
        },
        Ok(b) => {
            let r: bool = check_ext4(&b, device.len());
            assert(r == ext4_found(device.contents(), device.known_len(), true));
            r
        },
    }
}

fn has_bytes(b: &Vec<u8>, at: usize, want: &[u8]) -> (r: bool)
    requires
        at + want@.len() <= b@.len(),
    ensures
        r == bytes_at(b@, at as int, want@),
{
    let n: usize = b.len();
    assert(at + want@.len() <= n);
    let have = copy_range(b.as_slice(), at, at + want.len());
    bytes_eq(have.as_slice(), want)
}

fn name_foreign(b: &Vec<u8>) -> (r: Option<&'static str>)
    requires
        b@.len() == 512,
    ensures
        match r {
            Some(s) => foreign_name(b@) == Some(s@),
            None => foreign_name(b@) is None,
        },
{
    let xfs: [u8; 4] = [88, 70, 83, 66];
    let ntfs: [u8; 8] = [78, 84, 70, 83, 32, 32, 32, 32];
    let exfat: [u8; 8] = [69, 88, 70, 65, 84, 32, 32, 32];
    let fat12: [u8; 8] = [70, 65, 84, 49, 50, 32, 32, 32];
    let fat16: [u8; 8] = [70, 65, 84, 49, 54, 32, 32, 32];
    let fat32: [u8; 8] = [70, 65, 84, 51, 50, 32, 32, 32];
    proof {
        assert(xfs@ =~= seq![88u8, 70, 83, 66]);
        assert(ntfs@ =~= seq![78u8, 84, 70, 83, 32, 32, 32, 32]);
        assert(exfat@ =~= seq![69u8, 88, 70, 65, 84, 32, 32, 32]);
        assert(fat12@ =~= seq![70u8, 65, 84, 49, 50, 32, 32, 32]);
        assert(fat16@ =~= seq![70u8, 65, 84, 49, 54, 32, 32, 32]);
        assert(fat32@ =~= seq![70u8, 65, 84, 51, 50, 32, 32, 32]);
    }
    if has_bytes(b, 0, xfs.as_slice()) {
        return Some("XFS");
    }
    if has_bytes(b, 3, ntfs.as_slice()) {
        return Some("NTFS");
    }
    if has_bytes(b, 3, exfat.as_slice()) {
        return Some("exFAT");
    }
    if b[510] == 0x55 && b[511] == 0xAA && (has_bytes(b, 54, fat12.as_slice()) || has_bytes(
        b,
        54,
        fat16.as_slice(),
    ) || has_bytes(b, 82, fat32.as_slice())) {
        return Some("FAT32");
    }
    None
}

fn detect_unsupported<D: ReadAt>(device: &D) -> (r: Option<&'static str>)
    ensures
        exists|seen: bool|
            (device.steady() ==> seen) && match r {
                Some(s) => #[trigger] foreign_found(device.contents(), seen) == Some(s@),
                None => foreign_found(device.contents(), seen) is None,
            },
{
    match device.read_at(0, 512) {
        Err(_) => {
            assert(foreign_found(device.contents(), false) is None);
            assert(device.steady() ==> foreign_found(device.contents(), true) is None);
            None
        },
        Ok(b) => {
            let r = name_foreign(&b);
            assert(foreign_found(device.contents(), true) == foreign_name(b@));
            r
        },
    }
}

/// Whether `r` is the filesystem on a device.
pub open spec fn detects(steady: bool, disk: Seq<u8>, len: Option<u64>, r: Result<DetectedFs>) -> bool {
    exists|g: Glances| #[trigger]
        glances_possible(steady, g) && match r {
            Ok(d) => fs_found(disk, len, g) == Ok::<DetectedV, Fault>(d@),
            Err(e) => fs_found(disk, len, g) == Err::<DetectedV, Fault>(e@),
        }
}

/// Find out which filesystem is on a device; the superblock of a btrfs
/// filesystem comes along, so that mounting need not check it again.
pub fn detect_fs<D: ReadAt>(device: &D) -> (r: Result<DetectedFs>)
    ensures
        detects(device.steady(), device.contents(), device.known_len(), r),
        r matches Ok(DetectedFs::Btrfs(sb)) ==> sb@.wf(),
{
    let ghost disk = device.contents();
    let ghost len = device.known_len();
    let ghost steady = device.steady();
    let found = BtrfsSuperblock::find(device);
    let ghost copies = choose|seen: CopiesSeen| #[trigger]
        copies_possible(steady, seen) && match found {
            Ok(s) => super_found(disk, seen) == Some(s@),
            Err(e) => super_found(disk, seen) is None && e@ == Fault::CorruptFs(
                "no valid btrfs superblock"@,
            ),
        };
    let ext4: bool = detect_ext4(device);
    let ghost seen4 = choose|seen: bool|
        (steady ==> seen) && ext4 == #[trigger] ext4_found(disk, len, seen);
    let ghost g = Glances { copies, ext4: seen4, boot: true };
    assert(glances_possible(steady, g));
    match found {
        Ok(sb) => {
            if ext4 {
                Err(LuksError::AmbiguousFs)
            } else {
                Ok(DetectedFs::Btrfs(sb))
            }
        },
        Err(_) => {
            if ext4 {
                return Ok(DetectedFs::Ext4);
            }
            let name = detect_unsupported(device);
            proof {
                let boot = choose|seen: bool|
                    (steady ==> seen) && match name {
                        Some(s) => #[trigger] foreign_found(disk, seen) == Some(s@),
                        None => foreign_found(disk, seen) is None,
                    };
                assert(glances_possible(steady, Glances { copies, ext4: seen4, boot }));
            }
            match name {
                Some(s) => Err(LuksError::UnsupportedFs(s)),
                None => Err(LuksError::UnknownFs),
            }
        },
    }
}

/// Find out which filesystem is on a device.
pub fn detect<D: ReadAt>(device: &D) -> (r: Result<FsKind>)
    ensures
        exists|g: Glances| #[trigger]
            glances_possible(device.steady(), g) && match r {
                Ok(k) => fs_found(device.contents(), device.known_len(), g) matches Ok(d) && k
                    == kind_of(d),
                Err(e) => fs_found(device.contents(), device.known_len(), g) == Err::<
                    DetectedV,
                    Fault,
                >(e@),
            },
{
    match detect_fs(device) {
        Ok(d) => Ok(FsKind::from(d)),
        Err(e) => Err(e),
    }
}

} // verus!
