//! Inodes and directory items.

use vstd::prelude::*;

use crate::bytes::{
    bytes_eq, copy_range, get_u16, get_u32, get_u64, le16, le32, le64,
};
use crate::error::{prefixed, Fault, LuksError, Outcome, Result};
use crate::fs::btrfs::tree::Key;
use crate::fs::btrfs::write::edit::entry_len;
use crate::fs::{entry_type, mode_type, type_of_entry, type_of_mode, FileType};
use crate::seqs::{first_idx, first_idx_is};

verus! {

/// Bytes of an inode item.
pub const INODE_ITEM_BYTES: usize = 160;

/// An inode.
#[derive(Debug, Clone, Copy, PartialEq, Eq, Structural)]
pub struct Inode {
    pub objectid: u64,
    pub generation: u64,
    pub size: u64,
    pub nbytes: u64,
    pub nlink: u32,
    pub uid: u32,
    pub gid: u32,
    pub mode: u32,
    pub flags: u64,
}

/// An inode item, decoded.
pub open spec fn parse_inode(objectid: u64, d: Seq<u8>) -> Outcome<Inode> {
    if d.len() < INODE_ITEM_BYTES {
        Err(Fault::CorruptFs("btrfs inode item truncated"@))
    } else {
        Ok(
            Inode {
                objectid,
                generation: le64(d, 0),
                size: le64(d, 16),
                nbytes: le64(d, 24),
                nlink: le32(d, 40),
                uid: le32(d, 44),
                gid: le32(d, 48),
                mode: le32(d, 52),
                flags: le64(d, 64),
            },
        )
    }
}

impl Inode {
    /// What kind of file this is.
    pub open spec fn kind(self) -> FileType {
        mode_type(self.mode)
    }

    /// Decode an inode item.
    pub fn parse(objectid: u64, d: &[u8]) -> (r: Result<Self>)
        ensures
            match r {
                Ok(x) => parse_inode(objectid, d@) == Ok::<Inode, Fault>(x),
                Err(e) => parse_inode(objectid, d@) == Err::<Inode, Fault>(e@),
            },
    {
        if d.len() < INODE_ITEM_BYTES {
            return Err(LuksError::CorruptFs("btrfs inode item truncated"));
        }
        Ok(
            Inode {
                objectid,
                generation: get_u64(d, 0),
                size: get_u64(d, 16),
                nbytes: get_u64(d, 24),
                nlink: get_u32(d, 40),
                uid: get_u32(d, 44),
                gid: get_u32(d, 48),
                mode: get_u32(d, 52),
                flags: get_u64(d, 64),
            },
        )
    }

    /// What kind of file this is.
    pub fn file_type(&self) -> (r: FileType)
        ensures
            r == self.kind(),
    {
        type_of_mode(self.mode)
    }
}

/// One entry of a directory item.
#[derive(Debug)]
pub struct DirItem {
    /// The key of what the entry stands for: an inode, or a subvolume's root.
    pub location: Key,
    pub file_type: FileType,
    pub name: Vec<u8>,
}

/// The mathematical view of a [`DirItem`].
pub struct DirItemV {
    pub location: Key,
    pub file_type: FileType,
    pub name: Seq<u8>,
}

impl View for DirItem {
    type V = DirItemV;

    open spec fn view(&self) -> DirItemV {
        DirItemV { location: self.location, file_type: self.file_type, name: self.name@ }
    }
}

/// The views of a sequence of entries.
pub open spec fn dir_items_of(s: Seq<DirItem>) -> Seq<DirItemV> {
    s.map_values(|e: DirItem| e@)
}

/// The entry at the front of `d`.
pub open spec fn front_entry(d: Seq<u8>) -> DirItemV {
    DirItemV {
        location: Key { objectid: le64(d, 0), item_type: d[8], offset: le64(d, 9) },
        file_type: entry_type(d[29]),
        name: d.subrange(30, 30 + le16(d, 27)),
    }
}

/// The entries of a directory item.
pub open spec fn dir_entries(d: Seq<u8>) -> Outcome<Seq<DirItemV>>
    decreases d.len(),
{
    if d.len() == 0 {
        Ok(Seq::empty())
    } else if d.len() < 30 {
        Err(Fault::CorruptFs("btrfs directory item truncated"@))
    } else if entry_len(d) > d.len() {
        Err(Fault::CorruptFs("btrfs directory item overruns"@))
    } else {
        prefixed(seq![front_entry(d)], dir_entries(d.skip(entry_len(d))))
    }
}

proof fn entry_fields(d: Seq<u8>, pos: int)
    requires
        0 <= pos,
        pos + 30 <= d.len(),
    ensures
        le64(d.skip(pos), 0) == le64(d, pos),
        le64(d.skip(pos), 9) == le64(d, pos + 9),
        le16(d.skip(pos), 25) == le16(d, pos + 25),
        le16(d.skip(pos), 27) == le16(d, pos + 27),
        d.skip(pos)[8] == d[pos + 8],
        d.skip(pos)[29] == d[pos + 29],
{
    reveal(le16);
    reveal(le32);
    reveal(le64);
}

/// Decode a directory item.
pub fn parse_dir_entries(d: &[u8]) -> (r: Result<Vec<DirItem>>)
    ensures
        match r {
            Ok(v) => dir_entries(d@) == Ok::<Seq<DirItemV>, Fault>(dir_items_of(v@)),
            Err(e) => dir_entries(d@) == Err::<Seq<DirItemV>, Fault>(e@),
        },
{
    let n: usize = d.len();
    let mut out: Vec<DirItem> = Vec::new();
    let mut pos: usize = 0;
    let ghost whole = dir_entries(d@);
    proof {
        assert(d@.skip(0) =~= d@);
        assert(dir_items_of(out@) =~= Seq::<DirItemV>::empty());
        match whole {
            Ok(s) => {
                assert(Seq::<DirItemV>::empty() + s =~= s);
            },
            Err(_) => {},
        }
    }
    while pos < n
        invariant
            pos <= n,
            n == d@.len(),
            whole == dir_entries(d@),
            whole == prefixed(dir_items_of(out@), dir_entries(d@.skip(pos as int))),
        decreases n - pos,
    {
        let left: usize = n - pos;
        let ghost cur = d@.skip(pos as int);
        if left < 30 {
            return Err(LuksError::CorruptFs("btrfs directory item truncated"));
        }
        proof {
            entry_fields(d@, pos as int);
        }
        let data_len: usize = get_u16(d, pos + 25) as usize;
        let name_len: usize = get_u16(d, pos + 27) as usize;
        let total: usize = 30 + name_len + data_len;
        if total > left {
            return Err(LuksError::CorruptFs("btrfs directory item overruns"));
        }
        let e = DirItem {
            location: Key::new(get_u64(d, pos), d[pos + 8], get_u64(d, pos + 9)),
            file_type: type_of_entry(d[pos + 29]),
            name: copy_range(d, pos + 30, pos + 30 + name_len),
        };
        let ghost before = out@;
        assert(e@.name =~= front_entry(cur).name);
        assert(e@ == front_entry(cur));
        out.push(e);
        proof {
            assert(dir_items_of(out@) =~= dir_items_of(before).push(e@));
            assert(d@.skip(pos + total) =~= cur.skip(entry_len(cur)));
            match dir_entries(d@.skip(pos + total)) {
                Ok(s) => {
                    assert(dir_items_of(before) + (seq![e@] + s) =~= dir_items_of(out@) + s);
                },
                Err(_) => {},
            }
        }
        pos += total;
    }
    proof {
        assert(d@.skip(pos as int) =~= Seq::<u8>::empty());
        assert(dir_items_of(out@) + Seq::<DirItemV>::empty() =~= dir_items_of(out@));
    }
    Ok(out)
}

/// Entries with this name.
pub open spec fn has_name(name: Seq<u8>) -> spec_fn(DirItemV) -> bool {
    |e: DirItemV| e.name == name
}

/// Entries with this name for inode `ino`.
pub open spec fn has_name_for(name: Seq<u8>, ino: u64) -> spec_fn(DirItemV) -> bool {
    |e: DirItemV| e.name == name && e.location.objectid == ino
}

/// Whether one of `items` has this name.
pub open spec fn any_named(items: Seq<DirItemV>, name: Seq<u8>) -> bool {
    first_idx(items, has_name(name)) < items.len()
}

/// Whether one of `items` has this name and stands for inode `ino`.
pub open spec fn any_named_for(items: Seq<DirItemV>, name: Seq<u8>, ino: u64) -> bool {
    first_idx(items, has_name_for(name, ino)) < items.len()
}

/// The position of the first entry with this name, or the length.
pub fn find_name(items: &Vec<DirItem>, name: &[u8]) -> (p: usize)
    ensures
        p == first_idx(dir_items_of(items@), has_name(name@)),
        p <= items@.len(),
{
    let ghost all = dir_items_of(items@);
    let ghost f = has_name(name@);
    let n: usize = items.len();
    let mut i: usize = 0;
    while i < n
        invariant
            i <= n,
            n == items@.len(),
            all == dir_items_of(items@),
            f == has_name(name@),
            forall|j: int| 0 <= j < i ==> !f(#[trigger] all[j]),
        decreases n - i,
    {
        assert(all[i as int] == items@[i as int]@);
        if bytes_eq(items[i].name.as_slice(), name) {
            proof {
                first_idx_is(all, f, i as int);
            }
            return i;
        }
        i += 1;
    }
    proof {
        first_idx_is(all, f, n as int);
    }
    n
}

/// Whether one of `items` has this name and stands for inode `ino`.
pub fn find_name_for(items: &Vec<DirItem>, name: &[u8], ino: u64) -> (r: bool)
    ensures
        r == any_named_for(dir_items_of(items@), name@, ino),
{
    let ghost all = dir_items_of(items@);
    let ghost f = has_name_for(name@, ino);
    let n: usize = items.len();
    let mut i: usize = 0;
    while i < n
        invariant
            i <= n,
            n == items@.len(),
            all == dir_items_of(items@),
            f == has_name_for(name@, ino),
            forall|j: int| 0 <= j < i ==> !f(#[trigger] all[j]),
        decreases n - i,
    {
        assert(all[i as int] == items@[i as int]@);
        if bytes_eq(items[i].name.as_slice(), name) && items[i].location.objectid == ino {
            proof {
                first_idx_is(all, f, i as int);
            }
            return true;
        }
        i += 1;
    }
    proof {
        first_idx_is(all, f, n as int);
    }
    false
}

} // verus!
