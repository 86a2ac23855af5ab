//! The on-disk format of the items in the trees of files.
//!
//! What is stated here is where the format keeps each field; what is shown is
//! that items that were stored so are read as what was stored, and that items
//! that are built or edited are stored so.

use vstd::prelude::*;

use crate::bytes::{
    enc16, enc32, enc64, group_enc_len, group_has_reads, has16, has32, has64, le64, splice,
};
use crate::error::Fault;
use crate::fs::btrfs::extent::{parse_extent, ExtentKind, FileExtent};
use crate::fs::btrfs::inode::{dir_entries, parse_inode, DirItemV, Inode};
use crate::fs::btrfs::roots::parse_root;
use crate::fs::btrfs::tree::Key;
use crate::fs::btrfs::volume::TreeRoot;
use crate::fs::btrfs::write::edit::{entry_len, patched, repointed, sized, InodePatch, SizeEdit};
use crate::fs::btrfs::write::payload::{
    dir_item_bytes, file_extent_bytes, inode_item_bytes, inode_ref_bytes,
};
use crate::fs::FileType;

verus! {

/// A time: seconds, and nanoseconds behind them.
pub open spec fn has_time(d: Seq<u8>, o: int, sec: u64, nsec: u32) -> bool {
    has64(d, o, sec as int) && has32(d, o + 8, nsec as int)
}

/// What an inode item says.
pub struct InodeFields {
    pub generation: u64,
    pub transid: u64,
    pub size: u64,
    pub nbytes: u64,
    pub nlink: u32,
    pub uid: u32,
    pub gid: u32,
    pub mode: u32,
    pub flags: u64,
    pub sequence: u64,
    pub atime: (u64, u32),
    pub ctime: (u64, u32),
    pub mtime: (u64, u32),
    pub otime: (u64, u32),
}

/// The 160 bytes of an inode item that says `f`.
pub open spec fn stores_inode(d: Seq<u8>, f: InodeFields) -> bool {
    &&& d.len() == 160
    &&& has64(d, 0, f.generation as int)
    &&& has64(d, 8, f.transid as int)
    &&& has64(d, 16, f.size as int)
    &&& has64(d, 24, f.nbytes as int)
    &&& has32(d, 40, f.nlink as int)
    &&& has32(d, 44, f.uid as int)
    &&& has32(d, 48, f.gid as int)
    &&& has32(d, 52, f.mode as int)
    &&& has64(d, 64, f.flags as int)
    &&& has64(d, 72, f.sequence as int)
    &&& has_time(d, 112, f.atime.0, f.atime.1)
    &&& has_time(d, 124, f.ctime.0, f.ctime.1)
    &&& has_time(d, 136, f.mtime.0, f.mtime.1)
    &&& has_time(d, 148, f.otime.0, f.otime.1)
}

/// An inode item is read as what was stored.
pub proof fn inode_reads_back(objectid: u64, d: Seq<u8>, f: InodeFields)
    requires
        stores_inode(d, f),
    ensures
        parse_inode(objectid, d) == Ok::<Inode, Fault>(
            Inode {
                objectid,
                generation: f.generation,
                size: f.size,
                nbytes: f.nbytes,
                nlink: f.nlink,
                uid: f.uid,
                gid: f.gid,
                mode: f.mode,
                flags: f.flags,
            },
        ),
{
    broadcast use group_has_reads;

}

/// A new inode item stores what it is built for: it was created, and last changed,
/// in the transaction that builds it, and all its times are the one that is given.
pub proof fn built_inode_is_stored(
    generation: u64,
    size: u64,
    nbytes: u64,
    mode: u32,
    uid: u32,
    gid: u32,
    nlink: u32,
    sec: u64,
    nsec: u32,
)
    ensures
        stores_inode(
            inode_item_bytes(generation, size, nbytes, mode, uid, gid, nlink, sec, nsec),
            InodeFields {
                generation,
                transid: generation,
                size,
                nbytes,
                nlink,
                uid,
                gid,
                mode,
                flags: 0,
                sequence: 1,
                atime: (sec, nsec),
                ctime: (sec, nsec),
                mtime: (sec, nsec),
                otime: (sec, nsec),
            },
        ),
{
    broadcast use group_enc_len;

    let d = inode_item_bytes(generation, size, nbytes, mode, uid, gid, nlink, sec, nsec);
    assert(d.len() == 160);
    assert(d.subrange(0, 8) =~= enc64(generation));
    assert(d.subrange(8, 16) =~= enc64(generation));
    assert(d.subrange(16, 24) =~= enc64(size));
    assert(d.subrange(24, 32) =~= enc64(nbytes));
    assert(d.subrange(40, 44) =~= enc32(nlink));
    assert(d.subrange(44, 48) =~= enc32(uid));
    assert(d.subrange(48, 52) =~= enc32(gid));
    assert(d.subrange(52, 56) =~= enc32(mode));
    assert(d.subrange(64, 72) =~= enc64(0));
    assert(d.subrange(72, 80) =~= enc64(1));
    assert(d.subrange(112, 120) =~= enc64(sec));
    assert(d.subrange(120, 124) =~= enc32(nsec));
    assert(d.subrange(124, 132) =~= enc64(sec));
    assert(d.subrange(132, 136) =~= enc32(nsec));
    assert(d.subrange(136, 144) =~= enc64(sec));
    assert(d.subrange(144, 148) =~= enc32(nsec));
    assert(d.subrange(148, 156) =~= enc64(sec));
    assert(d.subrange(156, 160) =~= enc32(nsec));
}

/// What an edit makes of a size and a count of bytes.
pub open spec fn resized(size: u64, nbytes: u64, e: SizeEdit, now: u64, count: u64) -> bool {
    match e {
        SizeEdit::Keep => now == size && count == nbytes,
        SizeEdit::Adjust { remove, grow } => {
            let left = if remove <= size {
                size - remove
            } else {
                0
            };
            &&& count == nbytes
            &&& left + grow <= u64::MAX ==> now == left + grow
            &&& left + grow > u64::MAX ==> now == u64::MAX
        },
        SizeEdit::Record { size: s, nbytes: n } => now == s && count == n,
    }
}

/// What is stored away from a splice stays.
proof fn stays64(d: Seq<u8>, o: int, b: Seq<u8>, at: int, x: int)
    requires
        has64(d, at, x),
        0 <= o,
        at + 8 <= o || o + b.len() <= at,
    ensures
        has64(splice(d, o, b), at, x),
{
    assert(splice(d, o, b).subrange(at, at + 8) =~= d.subrange(at, at + 8));
}

proof fn stays32(d: Seq<u8>, o: int, b: Seq<u8>, at: int, x: int)
    requires
        has32(d, at, x),
        0 <= o,
        at + 4 <= o || o + b.len() <= at,
    ensures
        has32(splice(d, o, b), at, x),
{
    assert(splice(d, o, b).subrange(at, at + 4) =~= d.subrange(at, at + 4));
}

proof fn put64(d: Seq<u8>, o: int, x: u64)
    requires
        0 <= o,
        o + 8 <= d.len(),
    ensures
        has64(splice(d, o, enc64(x)), o, x as int),
{
    broadcast use group_enc_len;

    assert(splice(d, o, enc64(x)).subrange(o, o + 8) =~= enc64(x));
}

proof fn put32(d: Seq<u8>, o: int, x: u32)
    requires
        0 <= o,
        o + 4 <= d.len(),
    ensures
        has32(splice(d, o, enc32(x)), o, x as int),
{
    broadcast use group_enc_len;

    assert(splice(d, o, enc32(x)).subrange(o, o + 4) =~= enc32(x));
}

/// One field of an inode item with eight bytes is set.
spec fn with64(f: InodeFields, o: int, x: u64) -> InodeFields {
    if o == 8 {
        InodeFields { transid: x, ..f }
    } else if o == 16 {
        InodeFields { size: x, ..f }
    } else if o == 24 {
        InodeFields { nbytes: x, ..f }
    } else if o == 72 {
        InodeFields { sequence: x, ..f }
    } else if o == 124 {
        InodeFields { ctime: (x, f.ctime.1), ..f }
    } else {
        InodeFields { mtime: (x, f.mtime.1), ..f }
    }
}

proof fn sets64(d: Seq<u8>, f: InodeFields, o: int, x: u64)
    requires
        stores_inode(d, f),
        o == 8 || o == 16 || o == 24 || o == 72 || o == 124 || o == 136,
    ensures
        stores_inode(splice(d, o, enc64(x)), with64(f, o, x)),
{
    broadcast use group_enc_len;

    let b = enc64(x);
    put64(d, o, x);
    if o != 8 {
        stays64(d, o, b, 8, f.transid as int);
    }
    if o != 16 {
        stays64(d, o, b, 16, f.size as int);
    }
    if o != 24 {
        stays64(d, o, b, 24, f.nbytes as int);
    }
    if o != 72 {
        stays64(d, o, b, 72, f.sequence as int);
    }
    if o != 124 {
        stays64(d, o, b, 124, f.ctime.0 as int);
    }
    if o != 136 {
        stays64(d, o, b, 136, f.mtime.0 as int);
    }
    stays64(d, o, b, 0, f.generation as int);
    stays32(d, o, b, 40, f.nlink as int);
    stays32(d, o, b, 44, f.uid as int);
    stays32(d, o, b, 48, f.gid as int);
    stays32(d, o, b, 52, f.mode as int);
    stays64(d, o, b, 64, f.flags as int);
    stays64(d, o, b, 112, f.atime.0 as int);
    stays32(d, o, b, 120, f.atime.1 as int);
    stays32(d, o, b, 132, f.ctime.1 as int);
    stays32(d, o, b, 144, f.mtime.1 as int);
    stays64(d, o, b, 148, f.otime.0 as int);
    stays32(d, o, b, 156, f.otime.1 as int);
}

/// The nanoseconds of one time are set.
proof fn sets32(d: Seq<u8>, f: InodeFields, o: int, x: u32)
    requires
        stores_inode(d, f),
        o == 132 || o == 144,
    ensures
        stores_inode(
            splice(d, o, enc32(x)),
            if o == 132 {
                InodeFields { ctime: (f.ctime.0, x), ..f }
            } else {
                InodeFields { mtime: (f.mtime.0, x), ..f }
            },
        ),
{
    broadcast use group_enc_len;

    let b = enc32(x);
    put32(d, o, x);
    if o != 132 {
        stays32(d, o, b, 132, f.ctime.1 as int);
    }
    if o != 144 {
        stays32(d, o, b, 144, f.mtime.1 as int);
    }
    stays64(d, o, b, 0, f.generation as int);
    stays64(d, o, b, 8, f.transid as int);
    stays64(d, o, b, 16, f.size as int);
    stays64(d, o, b, 24, f.nbytes as int);
    stays32(d, o, b, 40, f.nlink as int);
    stays32(d, o, b, 44, f.uid as int);
    stays32(d, o, b, 48, f.gid as int);
    stays32(d, o, b, 52, f.mode as int);
    stays64(d, o, b, 64, f.flags as int);
    stays64(d, o, b, 72, f.sequence as int);
    stays64(d, o, b, 112, f.atime.0 as int);
    stays32(d, o, b, 120, f.atime.1 as int);
    stays64(d, o, b, 124, f.ctime.0 as int);
    stays64(d, o, b, 136, f.mtime.0 as int);
    stays64(d, o, b, 148, f.otime.0 as int);
    stays32(d, o, b, 156, f.otime.1 as int);
}

/// A patched inode item stores what it stored, but for the transaction that changed
/// it last, a sequence number that is one higher, its change time, its
/// modification time if it was modified, and its size as the patch says.
pub proof fn patched_inode_is_stored(d: Seq<u8>, f: InodeFields, p: InodePatch)
    requires
        stores_inode(d, f),
        f.sequence < u64::MAX,
    ensures
        exists|size: u64, nbytes: u64| #[trigger]
            resized(f.size, f.nbytes, p.size, size, nbytes) && stores_inode(
                patched(d, p),
                InodeFields {
                    transid: p.generation,
                    size,
                    nbytes,
                    sequence: (f.sequence + 1) as u64,
                    ctime: (p.sec, p.nsec),
                    mtime: if p.modified {
                        (p.sec, p.nsec)
                    } else {
                        f.mtime
                    },
                    ..f
                },
            ),
{
    broadcast use group_has_reads;

    let d1 = splice(d, 8, enc64(p.generation));
    sets64(d, f, 8, p.generation);
    let f1 = with64(f, 8, p.generation);
    let a = sized(d1, p.size);
    let (size, nbytes) = match p.size {
        SizeEdit::Keep => (f.size, f.nbytes),
        SizeEdit::Adjust { remove, grow } => {
            let left = if remove <= f.size {
                f.size - remove
            } else {
                0
            };
            (
                if left + grow <= u64::MAX {
                    (left + grow) as u64
                } else {
                    u64::MAX
                },
                f.nbytes,
            )
        },
        SizeEdit::Record { size, nbytes } => (size, nbytes),
    };
    let f2 = InodeFields { size, nbytes, ..f1 };
    assert(stores_inode(a, f2)) by {
        match p.size {
            SizeEdit::Keep => {},
            SizeEdit::Adjust { remove, grow } => {
                sets64(d1, f1, 16, size);
            },
            SizeEdit::Record { size: s, nbytes: n } => {
                sets64(d1, f1, 16, s);
                sets64(splice(d1, 16, enc64(s)), with64(f1, 16, s), 24, n);
            },
        }
    }
    let q = (f.sequence + 1) as u64;
    assert(le64(a, 72) == f.sequence);
    sets64(a, f2, 72, q);
    let b = splice(a, 72, enc64(q));
    let f3 = with64(f2, 72, q);
    sets64(b, f3, 124, p.sec);
    let c0 = splice(b, 124, enc64(p.sec));
    let f4 = with64(f3, 124, p.sec);
    sets32(c0, f4, 132, p.nsec);
    let c = splice(c0, 132, enc32(p.nsec));
    let f5 = InodeFields { ctime: (p.sec, p.nsec), ..f4 };
    if p.modified {
        sets64(c, f5, 136, p.sec);
        sets32(splice(c, 136, enc64(p.sec)), with64(f5, 136, p.sec), 144, p.nsec);
    }
    assert(resized(f.size, f.nbytes, p.size, size, nbytes));
}

/// The root item of a tree whose root node is at `r.bytenr`.
pub open spec fn stores_root(d: Seq<u8>, r: TreeRoot) -> bool {
    &&& d.len() >= 239
    &&& has64(d, 160, r.generation as int)
    &&& has64(d, 168, r.root_dirid as int)
    &&& has64(d, 176, r.bytenr as int)
    &&& has64(d, 208, r.flags as int)
    &&& d[238] == r.level
}

/// A root item is read as what was stored.
pub proof fn root_reads_back(d: Seq<u8>, r: TreeRoot)
    requires
        stores_root(d, r),
    ensures
        parse_root(r.objectid, d) == Ok::<TreeRoot, Fault>(r),
{
    broadcast use group_has_reads;

}

/// A root item that points elsewhere stores what it stored, but for where the root
/// node is, how high it stands, and the transaction that wrote it.
pub proof fn repointed_root_is_stored(
    d: Seq<u8>,
    r: TreeRoot,
    generation: u64,
    bytenr: u64,
    level: u8,
)
    requires
        stores_root(d, r),
    ensures
        stores_root(
            repointed(d, generation, bytenr, level),
            TreeRoot { generation, bytenr, level, ..r },
        ),
        repointed(d, generation, bytenr, level).len() == d.len(),
{
    broadcast use group_enc_len;

    let a = splice(d, 160, enc64(generation));
    put64(d, 160, generation);
    stays64(d, 160, enc64(generation), 168, r.root_dirid as int);
    stays64(d, 160, enc64(generation), 208, r.flags as int);
    let b = splice(a, 176, enc64(bytenr));
    put64(a, 176, bytenr);
    stays64(a, 176, enc64(bytenr), 160, generation as int);
    stays64(a, 176, enc64(bytenr), 168, r.root_dirid as int);
    stays64(a, 176, enc64(bytenr), 208, r.flags as int);
    let c = b.update(238, level);
    assert(c.subrange(160, 168) =~= b.subrange(160, 168));
    assert(c.subrange(168, 176) =~= b.subrange(168, 176));
    assert(c.subrange(176, 184) =~= b.subrange(176, 184));
    assert(c.subrange(208, 216) =~= b.subrange(208, 216));
}

/// A directory entry as it is stored.
pub struct EntryFields {
    pub location: Key,
    pub transid: u64,
    pub kind: u8,
    pub name: Seq<u8>,
    /// What follows the name.
    pub data: Seq<u8>,
}

/// The bytes of a directory entry: the key of what it stands for, the transaction
/// that made it, the lengths of what follows the name and of the name, the kind
/// of file, and the name.
pub open spec fn stores_entry(d: Seq<u8>, e: EntryFields) -> bool {
    &&& d.len() == 30 + e.name.len() + e.data.len()
    &&& has64(d, 0, e.location.objectid as int)
    &&& d[8] == e.location.item_type
    &&& has64(d, 9, e.location.offset as int)
    &&& has64(d, 17, e.transid as int)
    &&& has16(d, 25, e.data.len() as int)
    &&& has16(d, 27, e.name.len() as int)
    &&& d[29] == e.kind
    &&& d.subrange(30, 30 + e.name.len() as int) == e.name
}

/// The kind of file that an entry's byte stands for.
pub open spec fn kind_of_byte(b: u8) -> FileType {
    match b {
        1 => FileType::Regular,
        2 => FileType::Directory,
        3 => FileType::CharDevice,
        4 => FileType::BlockDevice,
        5 => FileType::Fifo,
        6 => FileType::Socket,
        7 => FileType::Symlink,
        _ => FileType::Unknown,
    }
}

/// A directory item is read as the entries that were stored in it, one behind the
/// other.
pub proof fn entry_reads_back(d: Seq<u8>, e: EntryFields, rest: Seq<u8>)
    requires
        stores_entry(d, e),
        dir_entries(rest) is Ok,
    ensures
        dir_entries(d + rest) == Ok::<Seq<DirItemV>, Fault>(
            seq![
                DirItemV {
                    location: e.location,
                    file_type: kind_of_byte(e.kind),
                    name: e.name,
                },
            ] + dir_entries(rest)->Ok_0,
        ),
{
    broadcast use group_has_reads;

    let s = d + rest;
    assert(s.subrange(0, 8) =~= d.subrange(0, 8));
    assert(s.subrange(9, 17) =~= d.subrange(9, 17));
    assert(s.subrange(25, 27) =~= d.subrange(25, 27));
    assert(s.subrange(27, 29) =~= d.subrange(27, 29));
    assert(has64(s, 0, e.location.objectid as int));
    assert(has64(s, 9, e.location.offset as int));
    assert(has16(s, 25, e.data.len() as int));
    assert(has16(s, 27, e.name.len() as int));
    assert(entry_len(s) == d.len());
    assert(s.subrange(30, 30 + e.name.len() as int) =~= d.subrange(30, 30 + e.name.len() as int));
    assert(s.skip(d.len() as int) =~= rest);
}

/// A new directory entry stores what it is built for: it stands for an inode, and
/// nothing follows the name.
pub proof fn built_entry_is_stored(ino: u64, transid: u64, kind: u8, name: Seq<u8>)
    requires
        name.len() <= u16::MAX,
    ensures
        stores_entry(
            dir_item_bytes(ino, transid, kind, name),
            EntryFields {
                location: Key { objectid: ino, item_type: 1, offset: 0 },
                transid,
                kind,
                name,
                data: Seq::empty(),
            },
        ),
{
    broadcast use group_enc_len;

    let d = dir_item_bytes(ino, transid, kind, name);
    assert(d.subrange(0, 8) =~= enc64(ino));
    assert(d.subrange(9, 17) =~= enc64(0));
    assert(d.subrange(17, 25) =~= enc64(transid));
    assert(d.subrange(25, 27) =~= enc16(0));
    assert(d.subrange(27, 29) =~= enc16(name.len() as u16));
    assert(d.subrange(30, 30 + name.len() as int) =~= name);
}

/// A new back reference stores the index in the directory, the length of the name,
/// and the name.
pub proof fn built_ref_is_stored(index: u64, name: Seq<u8>)
    requires
        name.len() <= u16::MAX,
    ensures
        ({
            let d = inode_ref_bytes(index, name);
            &&& d.len() == 10 + name.len()
            &&& has64(d, 0, index as int)
            &&& has16(d, 8, name.len() as int)
            &&& d.skip(10) == name
        }),
{
    broadcast use group_enc_len;

    let d = inode_ref_bytes(index, name);
    assert(d.subrange(0, 8) =~= enc64(index));
    assert(d.subrange(8, 10) =~= enc16(name.len() as u16));
    assert(d.skip(10) =~= name);
}

/// A file extent item for an extent on the device, written (kind 1) or set aside
/// (kind 2).
pub open spec fn stores_extent(d: Seq<u8>, x: FileExtent) -> bool {
    &&& d.len() >= 53
    &&& has64(d, 0, x.generation as int)
    &&& has64(d, 8, x.ram_bytes as int)
    &&& d[16] == x.compression
    &&& x.kind == ExtentKind::Regular ==> d[20] == 1
    &&& x.kind == ExtentKind::Prealloc ==> d[20] == 2
    &&& x.kind != ExtentKind::Inline
    &&& has64(d, 21, x.disk_bytenr as int)
    &&& has64(d, 29, x.disk_num_bytes as int)
    &&& has64(d, 37, x.offset as int)
    &&& has64(d, 45, x.num_bytes as int)
}

/// A file extent item is read as what was stored.
pub proof fn extent_reads_back(d: Seq<u8>, x: FileExtent)
    requires
        stores_extent(d, x),
    ensures
        parse_extent(x.file_offset, d) == Ok::<FileExtent, Fault>(x),
{
    broadcast use group_has_reads;

}

/// A file extent item that holds its data itself (kind 0) takes up nothing of the
/// device.
pub proof fn inline_extent_reads_back(d: Seq<u8>, file_offset: u64, generation: u64, ram: u64)
    requires
        d.len() >= 21,
        has64(d, 0, generation as int),
        has64(d, 8, ram as int),
        d[20] == 0,
    ensures
        parse_extent(file_offset, d) matches Ok(x) && x.kind == ExtentKind::Inline && x.generation
            == generation && x.num_bytes == ram && x.ram_bytes == ram && x.file_offset == file_offset
            && !x.on_disk(),
{
    broadcast use group_has_reads;

}

/// A new file extent item stores what it is built for: a written extent, not
/// compressed, of which the file has all from its beginning on.
pub proof fn built_extent_is_stored(
    generation: u64,
    ram_bytes: u64,
    disk_bytenr: u64,
    disk_num_bytes: u64,
    num_bytes: u64,
)
    ensures
        stores_extent(
            file_extent_bytes(generation, ram_bytes, disk_bytenr, disk_num_bytes, num_bytes),
            FileExtent {
                file_offset: 0,
                generation,
                ram_bytes,
                compression: 0,
                kind: ExtentKind::Regular,
                disk_bytenr,
                disk_num_bytes,
                offset: 0,
                num_bytes,
            },
        ),
        file_extent_bytes(generation, ram_bytes, disk_bytenr, disk_num_bytes, num_bytes).len()
            == 53,
{
    broadcast use group_enc_len;

    let d = file_extent_bytes(generation, ram_bytes, disk_bytenr, disk_num_bytes, num_bytes);
    assert(d.subrange(0, 8) =~= enc64(generation));
    assert(d.subrange(8, 16) =~= enc64(ram_bytes));
    assert(d.subrange(21, 29) =~= enc64(disk_bytenr));
    assert(d.subrange(29, 37) =~= enc64(disk_num_bytes));
    assert(d.subrange(37, 45) =~= enc64(0));
    assert(d.subrange(45, 53) =~= enc64(num_bytes));
}

} // verus!
