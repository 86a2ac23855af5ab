//! What is told of a device by its bytes, and of a file by the number of its kind.

use vstd::arithmetic::power2::{lemma2_to64, pow2};
use vstd::prelude::*;

use crate::bytes::{group_has_reads, has16, has32};
use crate::error::Fault;
use crate::fs::btrfs::crc32c::crc_feed;
use crate::fs::btrfs::superblock::{super_found, CopiesSeen};
use crate::fs::detect::{bytes_at, ext4_valid, foreign_name, fs_found, DetectedV, Glances};
use crate::fs::ext4::volume::{block_bytes, wide};
use crate::fs::{entry_type, mode_type, FileType};

verus! {

/// The kinds of files, by the number that a directory entry has for them.
pub open spec fn kinds() -> Seq<FileType> {
    seq![
        FileType::Unknown,
        FileType::Regular,
        FileType::Directory,
        FileType::CharDevice,
        FileType::BlockDevice,
        FileType::Fifo,
        FileType::Socket,
        FileType::Symlink,
    ]
}

/// The kinds of files, by the number that the upper four bits of a mode have for
/// them.
pub open spec fn mode_kinds() -> Seq<FileType> {
    seq![
        FileType::Unknown,
        FileType::Fifo,
        FileType::CharDevice,
        FileType::Unknown,
        FileType::Directory,
        FileType::Unknown,
        FileType::BlockDevice,
        FileType::Unknown,
        FileType::Regular,
        FileType::Unknown,
        FileType::Symlink,
        FileType::Unknown,
        FileType::Socket,
        FileType::Unknown,
        FileType::Unknown,
        FileType::Unknown,
    ]
}

/// A directory entry tells the kind by its number; a number above the last kind
/// tells nothing.
pub proof fn entry_tells_kind(b: u8)
    ensures
        entry_type(b) == if b < 8 {
            kinds()[b as int]
        } else {
            FileType::Unknown
        },
{
}

/// A mode tells the kind by bits 12 to 15, whatever the others are.
pub proof fn mode_tells_kind(mode: u32)
    ensures
        mode_type(mode) == mode_kinds()[((mode / 4096) % 16) as int],
{
    assert(mode & 0xF000 == ((mode / 4096) % 16) * 4096) by (bit_vector);
    let n = (mode / 4096) % 16;
    let f = mode & 0xF000;
    assert(f == n * 4096);
    assert(mode_kinds()[n as int] == mode_kinds()[(f as int / 4096)]);
}

/// The fields of an ext4 superblock that tell whether it is one.
pub struct Ext4Fields {
    pub inodes: u32,
    pub blocks: u32,
    pub blocks_above: u32,
    /// Blocks are 1024 times this power of two.
    pub log: u32,
    pub blocks_per_group: u32,
    pub inodes_per_group: u32,
    pub magic: u16,
    pub revision: u32,
    pub inode_size: u16,
    pub incompat: u32,
    pub ro_compat: u32,
    pub checksum: u32,
}

/// The bytes of a superblock with these fields.
pub open spec fn stores_fields(b: Seq<u8>, f: Ext4Fields) -> bool {
    &&& b.len() == 1024
    &&& has32(b, 0, f.inodes as int)
    &&& has32(b, 4, f.blocks as int)
    &&& has32(b, 24, f.log as int)
    &&& has32(b, 32, f.blocks_per_group as int)
    &&& has32(b, 40, f.inodes_per_group as int)
    &&& has16(b, 56, f.magic as int)
    &&& has32(b, 76, f.revision as int)
    &&& has16(b, 88, f.inode_size as int)
    &&& has32(b, 96, f.incompat as int)
    &&& has32(b, 100, f.ro_compat as int)
    &&& has32(b, 336, f.blocks_above as int)
    &&& has32(b, 1020, f.checksum as int)
}

/// How many blocks a filesystem has: the upper half counts where feature bit 7 is
/// set, from the first revision on.
pub open spec fn blocks_in(f: Ext4Fields) -> int {
    if f.revision >= 1 && (f.incompat / 128) % 2 == 1 {
        f.blocks_above * 0x1_0000_0000 + f.blocks
    } else {
        f.blocks as int
    }
}

/// An ext4 filesystem is told by its superblock: the magic number, blocks of 64 KiB
/// at most, some inodes and some blocks, some of both in a group, and blocks for
/// twice the device at most; from the first revision on, inodes of 128 bytes or
/// more, and the right checksum where feature bit 10 says that there is one.
pub proof fn ext4_is_told(b: Seq<u8>, f: Ext4Fields, len: Option<u64>)
    requires
        stores_fields(b, f),
    ensures
        ext4_valid(b, len) <==> {
            &&& f.magic == 0xEF53
            &&& f.log <= 6
            &&& f.inodes > 0
            &&& blocks_in(f) > 0
            &&& f.blocks_per_group > 0
            &&& f.inodes_per_group > 0
            &&& len matches Some(n) ==> blocks_in(f) * (1024 * pow2(f.log as nat)) <= 2 * n
                && blocks_in(f) * (1024 * pow2(f.log as nat)) <= u64::MAX
            &&& f.revision >= 1 ==> f.inode_size >= 128
            &&& f.revision >= 1 && (f.ro_compat / 1024) % 2 == 1 ==> f.checksum == crc_feed(
                0xFFFF_FFFF,
                b.take(1020),
            )
        },
{
    broadcast use group_has_reads;

    lemma2_to64();
    let x = f.incompat;
    let y = f.ro_compat;
    assert((x & 0x80 != 0) == ((x / 128) % 2 == 1)) by (bit_vector);
    assert((y & 0x400 != 0) == ((y / 1024) % 2 == 1)) by (bit_vector);
    assert(f.log <= 6 ==> block_bytes(f.log) == 1024 * pow2(f.log as nat));
    assert(wide(f.blocks, f.blocks_above) == f.blocks_above * 0x1_0000_0000 + f.blocks);
}

/// The bytes 1024 to 2047 of a device.
pub open spec fn second_kib(disk: Seq<u8>) -> Seq<u8> {
    disk.subrange(1024, 2048)
}

/// What a device that can be read holds: a btrfs filesystem where a superblock copy
/// is valid; an ext4 filesystem where the bytes from 1024 on are its superblock;
/// where both hold, neither is chosen.
pub proof fn device_is_told(disk: Seq<u8>, len: Option<u64>)
    requires
        disk.len() >= 2048,
    ensures
        ({
            let copies = CopiesSeen { first: true, second: true, third: true };
            let told = fs_found(disk, len, Glances { copies, ext4: true, boot: true });
            let ext4 = ext4_valid(second_kib(disk), len);
            match super_found(disk, copies) {
                Some(s) => told == if ext4 {
                    Err::<DetectedV, Fault>(Fault::AmbiguousFs)
                } else {
                    Ok(DetectedV::Btrfs(s))
                },
                None => if ext4 {
                    told == Ok::<DetectedV, Fault>(DetectedV::Ext4)
                } else {
                    told is Err && told->Err_0 != Fault::AmbiguousFs
                },
            }
        }),
{
}

/// The bytes of `b` from `at` on are `t`.
pub open spec fn shows(b: Seq<u8>, at: int, t: Seq<u8>) -> bool {
    at + t.len() <= b.len() && forall|i: int| 0 <= i < t.len() ==> b[at + i] == #[trigger] t[i]
}

/// A device that holds neither is named by its first sector: `XFSB` at its start;
/// `NTFS` or `EXFAT`, filled up with spaces, behind the jump; the name of a FAT at
/// byte 54 or 82, where the sector ends in its signature; and otherwise not.
pub proof fn stranger_is_named(b: Seq<u8>)
    requires
        b.len() == 512,
    ensures
        ({
            let xfs = shows(b, 0, seq![0x58u8, 0x46, 0x53, 0x42]);
            let ntfs = shows(b, 3, seq![0x4Eu8, 0x54, 0x46, 0x53, 0x20, 0x20, 0x20, 0x20]);
            let exfat = shows(b, 3, seq![0x45u8, 0x58, 0x46, 0x41, 0x54, 0x20, 0x20, 0x20]);
            let fat = shows(b, 510, seq![0x55u8, 0xAA]) && (shows(
                b,
                54,
                seq![0x46u8, 0x41, 0x54, 0x31, 0x32, 0x20, 0x20, 0x20],
            ) || shows(b, 54, seq![0x46u8, 0x41, 0x54, 0x31, 0x36, 0x20, 0x20, 0x20]) || shows(
                b,
                82,
                seq![0x46u8, 0x41, 0x54, 0x33, 0x32, 0x20, 0x20, 0x20],
            ));
            &&& xfs ==> foreign_name(b) == Some("XFS"@)
            &&& ntfs && !xfs ==> foreign_name(b) == Some("NTFS"@)
            &&& exfat && !xfs ==> foreign_name(b) == Some("exFAT"@)
            &&& fat && !xfs && !ntfs && !exfat ==> foreign_name(b) == Some("FAT32"@)
            &&& !xfs && !ntfs && !exfat && !fat ==> foreign_name(b) is None
        }),
{
    sector_shows(b, 0, seq![0x58u8, 0x46, 0x53, 0x42]);
    let ntfs = seq![0x4Eu8, 0x54, 0x46, 0x53, 0x20, 0x20, 0x20, 0x20];
    let exfat = seq![0x45u8, 0x58, 0x46, 0x41, 0x54, 0x20, 0x20, 0x20];
    sector_shows(b, 3, ntfs);
    sector_shows(b, 3, exfat);
    sector_shows(b, 54, seq![0x46u8, 0x41, 0x54, 0x31, 0x32, 0x20, 0x20, 0x20]);
    sector_shows(b, 54, seq![0x46u8, 0x41, 0x54, 0x31, 0x36, 0x20, 0x20, 0x20]);
    sector_shows(b, 82, seq![0x46u8, 0x41, 0x54, 0x33, 0x32, 0x20, 0x20, 0x20]);
    let end = seq![0x55u8, 0xAA];
    assert(shows(b, 510, end) == (b[510] == 0x55 && b[511] == 0xAA)) by {
        if shows(b, 510, end) {
            assert(b[510] == end[0]);
            assert(b[511] == end[1]);
        }
    }
    if shows(b, 3, ntfs) && shows(b, 3, exfat) {
        assert(b[3] == ntfs[0]);
        assert(b[3] == exfat[0]);
    }
}

proof fn sector_shows(b: Seq<u8>, at: int, t: Seq<u8>)
    requires
        0 <= at,
        at + t.len() <= b.len(),
    ensures
        bytes_at(b, at, t) == shows(b, at, t),
{
    let x = b.subrange(at, at + t.len());
    if shows(b, at, t) {
        assert(x =~= t);
    }
    if x == t {
        assert forall|i: int| 0 <= i < t.len() implies b[at + i] == #[trigger] t[i] by {
            assert(x[i] == t[i]);
        }
    }
}

} // verus!
