//! Transactions.
//!
//! A transaction holds every block that a change makes, worked out in memory
//! before anything is written.

pub mod chunk;
pub mod create;
pub mod data;
pub mod delete;
pub mod mtime;
pub mod rename;

use vstd::prelude::*;

use crate::device::ReadAt;
use crate::error::{tracks, Outcome, Result};
use crate::fs::btrfs::blocks::BlockMap;
use crate::fs::btrfs::crc32c::name_hash;
use crate::fs::btrfs::files::entry_key;
use crate::fs::btrfs::search::{find_max_inode, max_inode};
use crate::fs::btrfs::tree::{
    Key, DIR_INDEX_KEY, DIR_ITEM_KEY, FS_TREE_OBJECTID, INODE_ITEM_KEY, INODE_REF_KEY,
};
use crate::fs::btrfs::volume::{Btrfs, FsV, TreeRoot};
use crate::fs::btrfs::write::converge::{
    converge_and_finalize, file_changes, finalized, looked_up, only_files, possible, Lookups,
};
use crate::fs::btrfs::write::edit::{EditV, InodePatch, LeafEdit, SizeEdit};
use crate::fs::btrfs::write::extent_tree::cap64;
use crate::fs::btrfs::write::payload::{
    build_dir_item, build_inode_ref, dir_item_bytes, inode_ref_bytes, pairs_of,
};
use crate::fs::btrfs::write::space::{BgV, FreeSpaceMap};
use crate::fs::btrfs::write::workspace::{
    fresh_state, ops_of, steps, OpV, TreeOp, Workspace,
};
use crate::text::{bytes_of, utf8};

verus! {

/// A complete, self-consistent transaction.
#[derive(Debug)]
pub struct Transaction {
    pub new_generation: u64,
    pub final_root_bytenr: u64,
    pub final_root_level: u8,
    /// The root of the chunk tree, if it changed.
    pub final_chunk_root: Option<(u64, u8)>,
    pub final_bytes_used: u64,
    pub new_fs_tree: TreeRoot,
    /// Tree blocks to write.
    pub pending_blocks: BlockMap,
    /// File data to write.
    pub pending_data: Vec<(u64, Vec<u8>)>,
    /// The allocator as the transaction leaves it.
    pub final_allocator: Option<FreeSpaceMap>,
}

/// The mathematical view of a [`Transaction`].
pub struct TxnV {
    pub generation: u64,
    pub root: (u64, u8),
    pub chunk_root: Option<(u64, u8)>,
    pub bytes_used: u64,
    pub fs_tree: TreeRoot,
    pub blocks: Map<u64, Seq<u8>>,
    pub data: Seq<(u64, Seq<u8>)>,
    pub space: Option<Seq<BgV>>,
}

impl View for Transaction {
    type V = TxnV;

    open spec fn view(&self) -> TxnV {
        TxnV {
            generation: self.new_generation,
            root: (self.final_root_bytenr, self.final_root_level),
            chunk_root: self.final_chunk_root,
            bytes_used: self.final_bytes_used,
            fs_tree: self.new_fs_tree,
            blocks: self.pending_blocks@,
            data: pairs_of(self.pending_data@),
            space: match self.final_allocator {
                Some(a) => Some(a@),
                None => None,
            },
        }
    }
}

/// `r` is what the model says for some possible course of the lookups of
/// trees that need not exist.
pub open spec fn tracks_some<T: View>(
    steady: bool,
    r: Result<T>,
    want: spec_fn(Lookups) -> Outcome<T::V>,
) -> bool {
    exists|seen: Lookups| #[trigger] possible(steady, seen) && tracks(steady, r, want(seen))
}

/// The generation that the next transaction writes.
pub open spec fn next_generation(fs: FsV) -> u64 {
    cap64(fs.sb.generation + 1)
}

/// The inode number for the next new file.
pub open spec fn next_inode(fs: FsV) -> Outcome<u64> {
    match max_inode(fs) {
        Err(e) => Err(e),
        Ok(m) => Ok(
            if m < 256 {
                256
            } else {
                cap64(m + 1)
            },
        ),
    }
}

/// Where the root node of the default subvolume is.
pub open spec fn files_root(fs: FsV) -> (u64, u8) {
    (fs.fs_tree.bytenr, fs.fs_tree.level)
}

/// The key of an inode item.
pub open spec fn inode_key(ino: u64) -> Key {
    Key { objectid: ino, item_type: INODE_ITEM_KEY, offset: 0 }
}

/// The bytes that a name adds to the size of its directory.
pub open spec fn name_weight(name: Seq<char>) -> u64 {
    cap64(utf8(name).len() + utf8(name).len() as int)
}

/// The bytes that a name adds to the size of its directory.
pub fn weight_of(name: &str) -> (r: u64)
    ensures
        r == name_weight(name@),
{
    let n: u64 = bytes_of(name).len() as u64;
    n.saturating_add(n)
}

/// Patch an inode item.
pub open spec fn touch(
    ino: u64,
    patch: InodePatch,
    missing: Seq<char>,
    truncated: Seq<char>,
) -> OpV {
    OpV::Edit { key: inode_key(ino), edit: EditV::Inode { patch, missing, truncated } }
}

/// Patch an inode item.
pub fn touch_op(
    ino: u64,
    patch: InodePatch,
    missing: &'static str,
    truncated: &'static str,
) -> (r: TreeOp)
    ensures
        r@ == touch(ino, patch, missing@, truncated@),
{
    TreeOp::Edit {
        key: Key::new(ino, INODE_ITEM_KEY, 0),
        edit: LeafEdit::Inode { patch, missing, truncated },
    }
}

/// Append a change to a list of changes.
pub fn push_op(v: &mut Vec<TreeOp>, op: TreeOp)
    ensures
        ops_of(final(v)@) == ops_of(old(v)@).push(op@),
{
    let ghost before = v@;
    v.push(op);
    assert(ops_of(v@) =~= ops_of(before).push(op@));
}

/// A new entry of a directory.
pub struct NewEntry<'a> {
    pub generation: u64,
    /// The inode number of the directory.
    pub parent: u64,
    pub ino: u64,
    /// The entry's index in the directory.
    pub index: u64,
    pub name: &'a str,
    /// The type byte of the entry.
    pub kind: u8,
    pub sec: u64,
    pub nsec: u32,
    /// Whether the entry may share its directory item with others of the same
    /// hash.
    pub shares: bool,
    /// The message for an absent parent.
    pub missing: &'static str,
}

/// The mathematical view of a [`NewEntry`].
pub struct NewEntryV {
    pub generation: u64,
    pub parent: u64,
    pub ino: u64,
    pub index: u64,
    pub name: Seq<char>,
    pub kind: u8,
    pub sec: u64,
    pub nsec: u32,
    pub shares: bool,
    pub missing: Seq<char>,
}

impl<'a> View for NewEntry<'a> {
    type V = NewEntryV;

    open spec fn view(&self) -> NewEntryV {
        NewEntryV {
            generation: self.generation,
            parent: self.parent,
            ino: self.ino,
            index: self.index,
            name: self.name@,
            kind: self.kind,
            sec: self.sec,
            nsec: self.nsec,
            shares: self.shares,
            missing: self.missing@,
        }
    }
}

/// The changes that make a new file: the directory grows by the name, gains an
/// entry under the hash and one under the index, and the file gains its inode
/// and its reference back.
pub open spec fn entry_ops(e: NewEntryV, inode: Seq<u8>) -> Seq<OpV> {
    let key = entry_key(e.parent, utf8(e.name));
    let item = dir_item_bytes(e.ino, e.generation, e.kind, utf8(e.name));
    seq![
        touch(
            e.parent,
            InodePatch {
                generation: e.generation,
                size: SizeEdit::Adjust { remove: 0, grow: name_weight(e.name) },
                sec: e.sec,
                nsec: e.nsec,
                modified: true,
            },
            e.missing,
            "parent inode item truncated"@,
        ),
        if e.shares {
            OpV::Append { key, data: item }
        } else {
            OpV::Insert { key, data: item }
        },
        OpV::Insert {
            key: Key { objectid: e.parent, item_type: DIR_INDEX_KEY, offset: e.index },
            data: item,
        },
        OpV::Insert { key: inode_key(e.ino), data: inode },
        OpV::Insert {
            key: Key { objectid: e.ino, item_type: INODE_REF_KEY, offset: e.parent },
            data: inode_ref_bytes(e.index, utf8(e.name)),
        },
    ]
}

/// The changes that make a new file.
pub fn entry_changes(e: &NewEntry, inode: Vec<u8>) -> (r: Vec<TreeOp>)
    ensures
        ops_of(r@) == entry_ops(e@, inode@),
{
    let mut v: Vec<TreeOp> = Vec::new();
    let patch = InodePatch {
        generation: e.generation,
        size: SizeEdit::Adjust { remove: 0, grow: weight_of(e.name) },
        sec: e.sec,
        nsec: e.nsec,
        modified: true,
    };
    v.push(touch_op(e.parent, patch, e.missing, "parent inode item truncated"));
    let key = Key::new(e.parent, DIR_ITEM_KEY, name_hash(bytes_of(e.name)));
    let item = build_dir_item(e.ino, e.generation, e.kind, e.name);
    if e.shares {
        v.push(TreeOp::Append { key, data: item });
    } else {
        v.push(TreeOp::Insert { key, data: item });
    }
    v.push(
        TreeOp::Insert {
            key: Key::new(e.parent, DIR_INDEX_KEY, e.index),
            data: build_dir_item(e.ino, e.generation, e.kind, e.name),
        },
    );
    v.push(TreeOp::Insert { key: Key::new(e.ino, INODE_ITEM_KEY, 0), data: inode });
    v.push(
        TreeOp::Insert {
            key: Key::new(e.ino, INODE_REF_KEY, e.parent),
            data: build_inode_ref(e.index, e.name),
        },
    );
    assert(ops_of(v@) =~= entry_ops(e@, inode@));
    v
}

/// The transaction that changes of the default subvolume come to.
pub open spec fn files_changed(
    fs: FsV,
    generation: u64,
    space: Seq<BgV>,
    ops: Seq<OpV>,
    seen: Lookups,
) -> Outcome<TxnV> {
    match steps(fs, generation, FS_TREE_OBJECTID, fresh_state(space), files_root(fs), ops) {
        Err(e) => Err(e),
        Ok((s, root)) => finalized(fs, only_files(fs, generation, root), s, seen.fst),
    }
}

/// Change the default subvolume, and finish the transaction.
pub fn change_files<D: ReadAt>(
    fs: &Btrfs<D>,
    generation: u64,
    allocator: FreeSpaceMap,
    ops: &Vec<TreeOp>,
) -> (r: Result<Transaction>)
    ensures
        tracks_some(
            fs.steady(),
            r,
            |seen: Lookups| files_changed(fs@, generation, allocator@, ops_of(ops@), seen),
        ),
{
    assert(possible(fs.steady(), Lookups { csum: true, fst: true, shape: true }));
    let mut w = Workspace::new(allocator);
    let tree = fs.fs_tree();
    let root = w.apply_all(fs, generation, FS_TREE_OBJECTID, (tree.bytenr, tree.level), ops)?;
    let c = file_changes(fs, generation, root);
    let ghost s = w@;
    let r = converge_and_finalize(fs, c, w);
    proof {
        let fst = choose|fst: bool| #[trigger]
            looked_up(fs.steady(), fst) && tracks(fs.steady(), r, finalized(fs@, c@, s, fst));
        assert(possible(fs.steady(), Lookups { csum: true, fst, shape: true }));
    }
    r
}

/// The inode number for the next new file.
pub fn new_inode_number<D: ReadAt>(fs: &Btrfs<D>) -> (r: Result<u64>)
    ensures
        tracks(fs.steady(), r, next_inode(fs@)),
{
    let m: u64 = find_max_inode(fs)?;
    Ok(
        if m < 256 {
            256
        } else {
            m.saturating_add(1)
        },
    )
}

/// The generation that the next transaction writes.
pub fn new_generation<D: ReadAt>(fs: &Btrfs<D>) -> (r: u64)
    ensures
        r == next_generation(fs@),
{
    fs.superblock().generation.saturating_add(1)
}

} // verus!
