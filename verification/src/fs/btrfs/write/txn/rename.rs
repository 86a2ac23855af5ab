//! Renaming and moving files.
//!
//! The first part finds out what is to be done and refuses what must not be;
//! it changes nothing. The second part lists the changes: the file that is
//! overwritten goes, the entry moves, and the inodes are brought up to date.

use vstd::prelude::*;

use crate::bytes::copy_range;
use crate::device::ReadAt;
use crate::error::{text, Fault, LuksError, Outcome, Result};
use crate::fs::btrfs::crc32c::name_hash;
use crate::fs::btrfs::files::{
    entry_in, entry_key, gives, inode_of, next_index, object_items, resolved, first_typed,
};
use crate::fs::btrfs::inode::{DirItem, DirItemV};
use crate::fs::btrfs::tree::{
    items_of, Item, Key, DIR_INDEX_KEY, DIR_ITEM_KEY, FS_TREE_OBJECTID, INODE_REF_KEY,
};
use crate::fs::btrfs::volume::{Btrfs, FsV};
use crate::fs::btrfs::write::converge::{possible, Lookups};
use crate::fs::btrfs::write::cow::agrees;
use crate::fs::btrfs::write::edit::{EditV, InodePatch, LeafEdit, SizeEdit};
use crate::fs::btrfs::write::extent_tree::{cap64, ExtentTree};
use crate::fs::btrfs::write::gate::{check_writeable, refusal};
use crate::fs::btrfs::write::load::{extent_tree_of, space_on};
use crate::fs::btrfs::write::payload::{
    build_dir_item, build_inode_ref, dir_item_bytes, inode_ref_bytes,
};
use crate::fs::btrfs::write::space::FreeSpaceMap;
use crate::fs::btrfs::write::txn::delete::{lose_spans, spans_lost};
use crate::fs::btrfs::write::txn::mtime::touched;
use crate::fs::btrfs::write::txn::{
    name_weight, new_generation, next_generation, push_op, touch, touch_op, tracks_some,
    weight_of, Transaction, TxnV,
};
use crate::fs::btrfs::write::unlink::{
    any_shared, collect_spans, deletions, find_index, find_ref_index, has_shared, index_of,
    keys_of, leaf_keys, push_deletions, ref_index, spans_of, Span,
};
use crate::fs::btrfs::write::workspace::{ops_of, OpV, TreeOp};
use crate::fs::FileType;
use crate::seqs::copy_vec;
use crate::text::{bytes_of, has_char, join3, text_eq, utf8};

verus! {

/// How many directories are climbed in the search for a cycle.
pub const MAX_CLIMB: u32 = 256;

/// Whether a name can be renamed from or to.
pub open spec fn usable_name(s: Seq<char>) -> bool {
    s.len() > 0 && s != "."@ && s != ".."@ && !s.contains('/')
}

fn is_usable_name(s: &str) -> (r: bool)
    ensures
        r == usable_name(s@),
{
    s.unicode_len() > 0 && !text_eq(s, ".") && !text_eq(s, "..") && !has_char(s, '/')
}

/// A name in a directory, as a path.
pub open spec fn under(dir: Seq<char>, name: Seq<char>) -> Seq<char> {
    dir + "/"@ + name
}

/// The type byte for a file type.
pub open spec fn type_byte(t: FileType) -> u8 {
    match t {
        FileType::Directory => 2,
        FileType::CharDevice => 3,
        FileType::BlockDevice => 4,
        FileType::Fifo => 5,
        FileType::Socket => 6,
        FileType::Symlink => 7,
        _ => 1,
    }
}

fn byte_of_type(t: FileType) -> (r: u8)
    ensures
        r == type_byte(t),
{
    match t {
        FileType::Directory => 2,
        FileType::CharDevice => 3,
        FileType::BlockDevice => 4,
        FileType::Fifo => 5,
        FileType::Socket => 6,
        FileType::Symlink => 7,
        _ => 1,
    }
}

/// Whether directory `at` is directory `dir` or lies below it: the way up from
/// `at`, `climb` directories at most, meets `dir`.
pub open spec fn lies_below(fs: FsV, at: u64, dir: u64, climb: nat) -> Outcome<bool>
    decreases climb,
{
    if climb == 0 || at == 256 || at == fs.fs_tree.root_dirid || at == dir {
        Ok(at == dir)
    } else {
        match first_typed(fs, fs.fs_tree.bytenr, at, INODE_REF_KEY) {
            Err(e) => Err(e),
            Ok(None) => Ok(false),
            Ok(Some(k)) => lies_below(fs, k.offset, dir, (climb - 1) as nat),
        }
    }
}

/// What the file at the destination takes along when it is overwritten.
pub struct ReplacedV {
    pub ino: u64,
    /// Its index in the directory; 0 if unknown.
    pub index: u64,
    pub spans: Seq<Span>,
}

/// What a rename does.
pub struct PlanV {
    pub from: u64,
    pub to: u64,
    pub child: u64,
    pub kind: u8,
    pub replaced: Option<ReplacedV>,
    pub old_index: u64,
    pub new_index: u64,
}

/// The outcome of resolving a rename: nothing to move, or a plan.
pub enum MoveV {
    Stay(u64),
    Go(PlanV),
}

/// The directories that a rename leads from and to.
pub open spec fn rename_ends(fs: FsV, old_dir: Seq<char>, new_dir: Seq<char>) -> Outcome<(u64, u64)> {
    match resolved(fs, fs.fs_tree, old_dir) {
        Err(e) => Err(e),
        Ok(a) => match resolved(fs, fs.fs_tree, new_dir) {
            Err(e) => Err(e),
            Ok(b) => if a.tree.objectid != FS_TREE_OBJECTID || b.tree.objectid
                != FS_TREE_OBJECTID {
                Err(Fault::UnsupportedFsFeature("subvolume rename not supported"@))
            } else if a.inode.kind() != FileType::Directory {
                Err(Fault::NotADirectory(old_dir))
            } else if b.inode.kind() != FileType::Directory {
                Err(Fault::NotADirectory(new_dir))
            } else {
                Ok((a.inode.objectid, b.inode.objectid))
            },
        },
    }
}

/// Whether a directory may move: not into itself, nor below itself.
pub open spec fn move_allowed(fs: FsV, child: DirItemV, to: u64, name: Seq<char>) -> Outcome<()> {
    if child.file_type != FileType::Directory {
        Ok(())
    } else if child.location.objectid == to {
        Err(
            Fault::UnsupportedFsFeature(
                "cannot move directory '"@ + name + "' into itself"@,
            ),
        )
    } else {
        match lies_below(fs, to, child.location.objectid, MAX_CLIMB as nat) {
            Err(e) => Err(e),
            Ok(true) => Err(
                Fault::UnsupportedFsFeature(
                    "cannot move directory '"@ + name + "' into its own descendant"@,
                ),
            ),
            Ok(false) => Ok(()),
        }
    }
}

/// What overwriting the entry `dest` of directory `to` takes along; `at` is
/// its path.
pub open spec fn overwritten(
    fs: FsV,
    dest: DirItemV,
    child_is_dir: bool,
    to: u64,
    at: Seq<char>,
) -> Outcome<ReplacedV> {
    let ino = dest.location.objectid;
    let root = fs.fs_tree.bytenr;
    if dest.file_type == FileType::Directory {
        if !child_is_dir {
            Err(Fault::IsADirectory(at))
        } else {
            match first_typed(fs, root, ino, DIR_INDEX_KEY) {
                Err(e) => Err(e),
                Ok(entry) => match inode_of(fs, root, ino) {
                    Err(e) => Err(e),
                    Ok(inode) => if entry is Some || inode.size > 0 {
                        Err(
                            Fault::UnsupportedFsFeature(
                                "destination directory '"@ + at + "' is not empty"@,
                            ),
                        )
                    } else {
                        match ref_index(fs, ino, to) {
                            Err(e) => Err(e),
                            Ok(index) => Ok(ReplacedV { ino, index, spans: Seq::empty() }),
                        }
                    },
                },
            }
        }
    } else if child_is_dir {
        Err(Fault::NotADirectory(at))
    } else {
        match inode_of(fs, root, ino) {
            Err(e) => Err(e),
            Ok(inode) => if inode.nlink > 1 {
                Err(
                    Fault::UnsupportedFsFeature(
                        "overwriting files with hardlinks (nlink > 1) is not supported"@,
                    ),
                )
            } else {
                match object_items(fs, root, ino) {
                    Err(e) => Err(e),
                    Ok(items) => match spans_of(items) {
                        Err(e) => Err(e),
                        Ok(spans) => match extent_tree_of(fs) {
                            Err(e) => Err(e),
                            Ok(t) => if any_shared(t.extents, spans) {
                                Err(
                                    Fault::UnsupportedFsFeature(
                                        "overwriting a file with shared data extents (refs > 1) is not supported"@,
                                    ),
                                )
                            } else {
                                match ref_index(fs, ino, to) {
                                    Err(e) => Err(e),
                                    Ok(index) => Ok(ReplacedV { ino, index, spans }),
                                }
                            },
                        },
                    },
                }
            },
        }
    }
}

/// The rest of a plan, once it is known what is overwritten.
pub open spec fn planned(
    fs: FsV,
    from: u64,
    to: u64,
    child: DirItemV,
    old_name: Seq<char>,
    replaced: Option<ReplacedV>,
) -> Outcome<MoveV> {
    let ino = child.location.objectid;
    match index_of(
        fs,
        ino,
        from,
        utf8(old_name),
        "old dir index not found for renamed entry"@,
    ) {
        Err(e) => Err(e),
        Ok(old_index) => match next_index(fs, fs.fs_tree.bytenr, to) {
            Err(e) => Err(e),
            Ok(new_index) => Ok(
                MoveV::Go(
                    PlanV {
                        from,
                        to,
                        child: ino,
                        kind: type_byte(child.file_type),
                        replaced,
                        old_index,
                        new_index,
                    },
                ),
            ),
        },
    }
}

/// What a rename does. Moving a file onto itself leaves it where it is.
pub open spec fn rename_plan(
    fs: FsV,
    old_dir: Seq<char>,
    old_name: Seq<char>,
    new_dir: Seq<char>,
    new_name: Seq<char>,
) -> Outcome<MoveV> {
    let root = fs.fs_tree.bytenr;
    if !usable_name(old_name) || !usable_name(new_name) {
        Err(Fault::NotFound("invalid filename for rename"@))
    } else {
        match rename_ends(fs, old_dir, new_dir) {
            Err(e) => Err(e),
            Ok((from, to)) => match entry_in(fs, root, from, utf8(old_name)) {
                Err(e) => Err(e),
                Ok(None) => Err(Fault::NotFound(under(old_dir, old_name))),
                Ok(Some(child)) => if from == to && old_name == new_name {
                    Ok(MoveV::Stay(child.location.objectid))
                } else {
                    match move_allowed(fs, child, to, old_name) {
                        Err(e) => Err(e),
                        Ok(_) => match entry_in(fs, root, to, utf8(new_name)) {
                            Err(e) => Err(e),
                            Ok(None) => planned(fs, from, to, child, old_name, None),
                            Ok(Some(dest)) => if dest.location.objectid
                                == child.location.objectid {
                                Ok(MoveV::Stay(child.location.objectid))
                            } else {
                                match overwritten(
                                    fs,
                                    dest,
                                    child.file_type == FileType::Directory,
                                    to,
                                    under(new_dir, new_name),
                                ) {
                                    Err(e) => Err(e),
                                    Ok(x) => planned(fs, from, to, child, old_name, Some(x)),
                                }
                            },
                        },
                    }
                },
            },
        }
    }
}

/// The entry of a file goes from its directory item.
pub open spec fn drop_name(dir: u64, name: Seq<char>, ino: u64, missing: Seq<char>) -> OpV {
    OpV::Edit {
        key: entry_key(dir, utf8(name)),
        edit: EditV::DropEntry { name: utf8(name), ino, missing },
    }
}

/// The index item of a file goes from its directory.
pub open spec fn drop_index(dir: u64, index: u64) -> OpV {
    OpV::Edit {
        key: Key { objectid: dir, item_type: DIR_INDEX_KEY, offset: index },
        edit: EditV::Delete,
    }
}

/// The key of a file's reference back to its directory.
pub open spec fn ref_key(ino: u64, dir: u64) -> Key {
    Key { objectid: ino, item_type: INODE_REF_KEY, offset: dir }
}

/// The changes that take the overwritten file away: its `items`, its index
/// item, and its entry.
pub open spec fn replacement_ops(x: ReplacedV, to: u64, new_name: Seq<char>, items: Seq<Item>) -> Seq<
    OpV,
> {
    let a = deletions(keys_of(items));
    let b = if x.index != 0 {
        a.push(drop_index(to, x.index))
    } else {
        a
    };
    b.push(drop_name(to, new_name, x.ino, "dest dir item not found"@))
}

/// The changes that move the entry.
pub open spec fn entry_move_ops(
    p: PlanV,
    generation: u64,
    old_name: Seq<char>,
    new_name: Seq<char>,
) -> Seq<OpV> {
    let item = dir_item_bytes(p.child, generation, p.kind, utf8(new_name));
    let back = inode_ref_bytes(p.new_index, utf8(new_name));
    let moved = seq![
        drop_name(p.from, old_name, p.child, "old dir item not found"@),
        drop_index(p.from, p.old_index),
        OpV::Append { key: entry_key(p.to, utf8(new_name)), data: item },
        OpV::Insert {
            key: Key { objectid: p.to, item_type: DIR_INDEX_KEY, offset: p.new_index },
            data: item,
        },
    ];
    if p.from == p.to {
        moved.push(
            OpV::Edit {
                key: ref_key(p.child, p.from),
                edit: EditV::Put { data: back, missing: "child inode ref not found"@ },
            },
        )
    } else {
        moved.push(OpV::Edit { key: ref_key(p.child, p.from), edit: EditV::Delete }).push(
            OpV::Insert { key: ref_key(p.child, p.to), data: back },
        )
    }
}

/// A directory's size and times, changed.
pub open spec fn resized(generation: u64, remove: u64, grow: u64, sec: u64, nsec: u32) -> InodePatch {
    InodePatch {
        generation,
        size: SizeEdit::Adjust { remove, grow },
        sec,
        nsec,
        modified: true,
    }
}

/// The changes that bring the inodes up to date.
pub open spec fn inode_ops(
    p: PlanV,
    generation: u64,
    old_name: Seq<char>,
    new_name: Seq<char>,
    sec: u64,
    nsec: u32,
) -> Seq<OpV> {
    let before = name_weight(old_name);
    let after = name_weight(new_name);
    let lost = if p.replaced is Some {
        after
    } else {
        0
    };
    let child = touch(
        p.child,
        InodePatch { generation, size: SizeEdit::Keep, sec, nsec, modified: false },
        "child inode not found"@,
        "child inode item truncated"@,
    );
    if p.from == p.to {
        seq![
            child,
            touch(
                p.from,
                resized(generation, cap64(before + lost), after, sec, nsec),
                "parent inode not found"@,
                "parent inode item truncated"@,
            ),
        ]
    } else {
        seq![
            child,
            touch(
                p.from,
                resized(generation, before, 0, sec, nsec),
                "old parent inode not found"@,
                "old parent inode item truncated"@,
            ),
            touch(
                p.to,
                resized(generation, lost, after, sec, nsec),
                "new parent inode not found"@,
                "new parent inode item truncated"@,
            ),
        ]
    }
}

/// All changes of a rename; `items` are those of the overwritten file.
pub open spec fn rename_ops(
    p: PlanV,
    generation: u64,
    items: Seq<Item>,
    old_name: Seq<char>,
    new_name: Seq<char>,
    sec: u64,
    nsec: u32,
) -> Seq<OpV> {
    let first = match p.replaced {
        Some(x) => replacement_ops(x, p.to, new_name, items),
        None => Seq::empty(),
    };
    first + entry_move_ops(p, generation, old_name, new_name) + inode_ops(
        p,
        generation,
        old_name,
        new_name,
        sec,
        nsec,
    )
}

/// The items of the file that a plan overwrites.
pub open spec fn replaced_items(fs: FsV, p: PlanV) -> Outcome<Seq<Item>> {
    match p.replaced {
        Some(x) => object_items(fs, fs.fs_tree.bytenr, x.ino),
        None => Ok(Seq::empty()),
    }
}

/// The transaction that renames a file.
pub open spec fn renamed(
    fs: FsV,
    old_dir: Seq<char>,
    old_name: Seq<char>,
    new_dir: Seq<char>,
    new_name: Seq<char>,
    sec: u64,
    nsec: u32,
    seen: Lookups,
) -> Outcome<TxnV> {
    let g = next_generation(fs);
    match refusal(fs) {
        Some(e) => Err(e),
        None => match rename_plan(fs, old_dir, old_name, new_dir, new_name) {
            Err(e) => Err(e),
            Ok(MoveV::Stay(ino)) => touched(fs, ino, sec, nsec, seen),
            Ok(MoveV::Go(p)) => match space_on(fs) {
                Err(e) => Err(e),
                Ok(space) => match replaced_items(fs, p) {
                    Err(e) => Err(e),
                    Ok(items) => spans_lost(
                        fs,
                        g,
                        space,
                        rename_ops(p, g, items, old_name, new_name, sec, nsec),
                        match p.replaced {
                            Some(x) => x.spans,
                            None => Seq::empty(),
                        },
                        seen,
                    ),
                },
            },
        },
    }
}

/// What the file at the destination takes along when it is overwritten.
#[derive(Debug)]
struct Replaced {
    ino: u64,
    index: u64,
    spans: Vec<Span>,
}

impl View for Replaced {
    type V = ReplacedV;

    closed spec fn view(&self) -> ReplacedV {
        ReplacedV { ino: self.ino, index: self.index, spans: self.spans@ }
    }
}

/// The view of what is overwritten.
spec fn plan_replaced(x: &Option<Replaced>) -> Option<ReplacedV> {
    match *x {
        Some(v) => Some(v@),
        None => None,
    }
}

/// What a rename does.
#[derive(Debug)]
struct RenamePlan {
    old_parent_ino: u64,
    new_parent_ino: u64,
    child_ino: u64,
    child_file_type: u8,
    dest_replacement: Option<Replaced>,
    old_dir_index: u64,
    new_dir_index: u64,
}

impl View for RenamePlan {
    type V = PlanV;

    closed spec fn view(&self) -> PlanV {
        PlanV {
            from: self.old_parent_ino,
            to: self.new_parent_ino,
            child: self.child_ino,
            kind: self.child_file_type,
            replaced: plan_replaced(&self.dest_replacement),
            old_index: self.old_dir_index,
            new_index: self.new_dir_index,
        }
    }
}

/// The outcome of resolving a rename.
#[derive(Debug)]
enum RenameResolution {
    NoOp(u64),
    Proceed(RenamePlan),
}

impl View for RenameResolution {
    type V = MoveV;

    closed spec fn view(&self) -> MoveV {
        match *self {
            RenameResolution::NoOp(ino) => MoveV::Stay(ino),
            RenameResolution::Proceed(p) => MoveV::Go(p@),
        }
    }
}

fn climbs_to<D: ReadAt>(fs: &Btrfs<D>, at: u64, dir: u64) -> (r: Result<bool>)
    ensures
        gives(fs.steady(), r, lies_below(fs@, at, dir, MAX_CLIMB as nat)),
{
    let tree = fs.fs_tree();
    let mut here: u64 = at;
    let mut left: u32 = MAX_CLIMB;
    while left > 0 && here != 256 && here != tree.root_dirid && here != dir
        invariant
            tree == fs@.fs_tree,
            lies_below(fs@, at, dir, MAX_CLIMB as nat) == lies_below(
                fs@,
                here,
                dir,
                left as nat,
            ),
        decreases left,
    {
        match fs.first_of_type(tree.bytenr, here, INODE_REF_KEY)? {
            None => {
                return Ok(false);
            },
            Some(k) => {
                here = k.offset;
            },
        }
        left -= 1;
    }
    Ok(here == dir)
}

fn check_move<D: ReadAt>(fs: &Btrfs<D>, child: &DirItem, to: u64, name: &str) -> (r: Result<()>)
    ensures
        gives(fs.steady(), r, move_allowed(fs@, child@, to, name@)),
{
    if !child.file_type.is_dir() {
        return Ok(());
    }
    if child.location.objectid == to {
        return Err(
            LuksError::UnsupportedFsFeature(
                join3("cannot move directory '", name, "' into itself"),
            ),
        );
    }
    if climbs_to(fs, to, child.location.objectid)? {
        return Err(
            LuksError::UnsupportedFsFeature(
                join3("cannot move directory '", name, "' into its own descendant"),
            ),
        );
    }
    Ok(())
}

fn check_overwrite<D: ReadAt>(
    fs: &Btrfs<D>,
    dest: &DirItem,
    child_is_dir: bool,
    to: u64,
    at: &str,
) -> (r: Result<Replaced>)
    ensures
        agrees(
            fs.steady(),
            r,
            overwritten(fs@, dest@, child_is_dir, to, at@),
            |x: Replaced| x@,
        ),
{
    let ino: u64 = dest.location.objectid;
    let root: u64 = fs.fs_tree().bytenr;
    if dest.file_type.is_dir() {
        if !child_is_dir {
            return Err(LuksError::IsADirectory(text(at)));
        }
        let entry = fs.first_of_type(root, ino, DIR_INDEX_KEY)?;
        let inode = fs.read_inode(root, ino)?;
        if entry.is_some() || inode.size > 0 {
            return Err(
                LuksError::UnsupportedFsFeature(
                    join3("destination directory '", at, "' is not empty"),
                ),
            );
        }
        let index: u64 = find_ref_index(fs, ino, to)?;
        let spans: Vec<Span> = Vec::new();
        assert(spans@ =~= Seq::<Span>::empty());
        return Ok(Replaced { ino, index, spans });
    }
    if child_is_dir {
        return Err(LuksError::NotADirectory(text(at)));
    }
    let inode = fs.read_inode(root, ino)?;
    if inode.nlink > 1 {
        return Err(
            LuksError::UnsupportedFsFeature(
                text("overwriting files with hardlinks (nlink > 1) is not supported"),
            ),
        );
    }
    let items = fs.items_of_object(root, ino)?;
    let spans = collect_spans(&items)?;
    let extents = ExtentTree::read(fs)?;
    if has_shared(&extents.extents, &spans) {
        return Err(
            LuksError::UnsupportedFsFeature(
                text(
                    "overwriting a file with shared data extents (refs > 1) is not supported",
                ),
            ),
        );
    }
    let index: u64 = find_ref_index(fs, ino, to)?;
    Ok(Replaced { ino, index, spans })
}

fn find_ends<D: ReadAt>(fs: &Btrfs<D>, old_dir: &str, new_dir: &str) -> (r: Result<(u64, u64)>)
    ensures
        gives(fs.steady(), r, rename_ends(fs@, old_dir@, new_dir@)),
{
    let a = fs.resolve_no_follow(fs.fs_tree(), old_dir)?;
    let b = fs.resolve_no_follow(fs.fs_tree(), new_dir)?;
    if a.tree.objectid != FS_TREE_OBJECTID || b.tree.objectid != FS_TREE_OBJECTID {
        return Err(LuksError::UnsupportedFsFeature(text("subvolume rename not supported")));
    }
    if !a.inode.file_type().is_dir() {
        return Err(LuksError::NotADirectory(text(old_dir)));
    }
    if !b.inode.file_type().is_dir() {
        return Err(LuksError::NotADirectory(text(new_dir)));
    }
    Ok((a.inode.objectid, b.inode.objectid))
}

/// Find out what a rename does; nothing is changed.
fn resolve_rename<D: ReadAt>(
    fs: &Btrfs<D>,
    old_parent_path: &str,
    old_name: &str,
    new_parent_path: &str,
    new_name: &str,
) -> (r: Result<RenameResolution>)
    ensures
        agrees(
            fs.steady(),
            r,
            rename_plan(fs@, old_parent_path@, old_name@, new_parent_path@, new_name@),
            |x: RenameResolution| x@,
        ),
{
    if !is_usable_name(old_name) || !is_usable_name(new_name) {
        return Err(LuksError::NotFound(text("invalid filename for rename")));
    }
    let (from, to) = find_ends(fs, old_parent_path, new_parent_path)?;
    let root: u64 = fs.fs_tree().bytenr;
    let child = match fs.lookup(root, from, old_name)? {
        Some(e) => e,
        None => {
            return Err(LuksError::NotFound(join3(old_parent_path, "/", old_name)));
        },
    };
    let ino: u64 = child.location.objectid;
    if from == to && text_eq(old_name, new_name) {
        return Ok(RenameResolution::NoOp(ino));
    }
    check_move(fs, &child, to, old_name)?;
    let mut replaced: Option<Replaced> = None;
    if let Some(dest) = fs.lookup(root, to, new_name)? {
        if dest.location.objectid == ino {
            return Ok(RenameResolution::NoOp(ino));
        }
        let at = join3(new_parent_path, "/", new_name);
        replaced = Some(
            check_overwrite(fs, &dest, child.file_type.is_dir(), to, at.as_str())?,
        );
    }
    let ghost model = plan_replaced(&replaced);
    assert(rename_plan(fs@, old_parent_path@, old_name@, new_parent_path@, new_name@) == planned(
        fs@,
        from,
        to,
        child@,
        old_name@,
        model,
    ));
    let old_index: u64 = find_index(
        fs,
        ino,
        from,
        bytes_of(old_name),
        "old dir index not found for renamed entry",
    )?;
    let new_index: u64 = fs.next_dir_index(root, to)?;
    Ok(
        RenameResolution::Proceed(
            RenamePlan {
                old_parent_ino: from,
                new_parent_ino: to,
                child_ino: ino,
                child_file_type: byte_of_type(child.file_type),
                dest_replacement: replaced,
                old_dir_index: old_index,
                new_dir_index: new_index,
            },
        ),
    )
}

fn drop_name_op(dir: u64, name: &str, ino: u64, missing: &'static str) -> (r: TreeOp)
    ensures
        r@ == drop_name(dir, name@, ino, missing@),
{
    let raw = bytes_of(name);
    assert(raw@.subrange(0, raw@.len() as int) =~= raw@);
    TreeOp::Edit {
        key: Key::new(dir, DIR_ITEM_KEY, name_hash(raw)),
        edit: LeafEdit::DropEntry { name: copy_range(raw, 0, raw.len()), ino, missing },
    }
}

fn drop_index_op(dir: u64, index: u64) -> (r: TreeOp)
    ensures
        r@ == drop_index(dir, index),
{
    TreeOp::Edit { key: Key::new(dir, DIR_INDEX_KEY, index), edit: LeafEdit::Delete }
}

/// Take the overwritten file away.
fn rename_delete_destination<D: ReadAt>(
    fs: &Btrfs<D>,
    ops: &mut Vec<TreeOp>,
    x: &Replaced,
    to: u64,
    new_name: &str,
) -> (r: Result<()>)
    ensures
        match r {
            Ok(_) => object_items(fs@, fs@.fs_tree.bytenr, x.ino) matches Ok(items) && ops_of(
                final(ops)@,
            ) == ops_of(old(ops)@) + replacement_ops(x@, to, new_name@, items),
            Err(e) => object_items(fs@, fs@.fs_tree.bytenr, x.ino) == Err::<Seq<Item>, Fault>(e@)
                || (!fs.steady() && e@ is Io),
        },
{
    let items = fs.items_of_object(fs.fs_tree().bytenr, x.ino)?;
    let ghost before = ops_of(ops@);
    push_deletions(ops, &leaf_keys(&items));
    if x.index != 0 {
        push_op(ops, drop_index_op(to, x.index));
    }
    push_op(ops, drop_name_op(to, new_name, x.ino, "dest dir item not found"));
    assert(ops_of(ops@) =~= before + replacement_ops(x@, to, new_name@, items_of(items@)));
    Ok(())
}

/// Move the entry.
fn rename_swap_dirent(
    ops: &mut Vec<TreeOp>,
    p: &RenamePlan,
    generation: u64,
    old_name: &str,
    new_name: &str,
)
    ensures
        ops_of(final(ops)@) == ops_of(old(ops)@) + entry_move_ops(
            p@,
            generation,
            old_name@,
            new_name@,
        ),
{
    let ghost before = ops_of(ops@);
    let from: u64 = p.old_parent_ino;
    let to: u64 = p.new_parent_ino;
    push_op(ops, drop_name_op(from, old_name, p.child_ino, "old dir item not found"));
    push_op(ops, drop_index_op(from, p.old_dir_index));
    push_op(
        ops,
        TreeOp::Append {
            key: Key::new(to, DIR_ITEM_KEY, name_hash(bytes_of(new_name))),
            data: build_dir_item(p.child_ino, generation, p.child_file_type, new_name),
        },
    );
    push_op(
        ops,
        TreeOp::Insert {
            key: Key::new(to, DIR_INDEX_KEY, p.new_dir_index),
            data: build_dir_item(p.child_ino, generation, p.child_file_type, new_name),
        },
    );
    let back = build_inode_ref(p.new_dir_index, new_name);
    if from == to {
        push_op(
            ops,
            TreeOp::Edit {
                key: Key::new(p.child_ino, INODE_REF_KEY, from),
                edit: LeafEdit::Put { data: back, missing: "child inode ref not found" },
            },
        );
    } else {
        push_op(
            ops,
            TreeOp::Edit {
                key: Key::new(p.child_ino, INODE_REF_KEY, from),
                edit: LeafEdit::Delete,
            },
        );
        push_op(
            ops,
            TreeOp::Insert { key: Key::new(p.child_ino, INODE_REF_KEY, to), data: back },
        );
    }
    assert(ops_of(ops@) =~= before + entry_move_ops(p@, generation, old_name@, new_name@));
}

/// Bring the inodes up to date.
fn rename_update_inodes(
    ops: &mut Vec<TreeOp>,
    p: &RenamePlan,
    generation: u64,
    old_name: &str,
    new_name: &str,
    sec: u64,
    nsec: u32,
)
    ensures
        ops_of(final(ops)@) == ops_of(old(ops)@) + inode_ops(
            p@,
            generation,
            old_name@,
            new_name@,
            sec,
            nsec,
        ),
{
    let ghost start = ops_of(ops@);
    let before: u64 = weight_of(old_name);
    let after: u64 = weight_of(new_name);
    let lost: u64 = if p.dest_replacement.is_some() {
        after
    } else {
        0
    };
    push_op(
        ops,
        touch_op(
            p.child_ino,
            InodePatch { generation, size: SizeEdit::Keep, sec, nsec, modified: false },
            "child inode not found",
            "child inode item truncated",
        ),
    );
    if p.old_parent_ino == p.new_parent_ino {
        push_op(
            ops,
            touch_op(
                p.old_parent_ino,
                InodePatch {
                    generation,
                    size: SizeEdit::Adjust { remove: before.saturating_add(lost), grow: after },
                    sec,
                    nsec,
                    modified: true,
                },
                "parent inode not found",
                "parent inode item truncated",
            ),
        );
    } else {
        push_op(
            ops,
            touch_op(
                p.old_parent_ino,
                InodePatch {
                    generation,
                    size: SizeEdit::Adjust { remove: before, grow: 0 },
                    sec,
                    nsec,
                    modified: true,
                },
                "old parent inode not found",
                "old parent inode item truncated",
            ),
        );
        push_op(
            ops,
            touch_op(
                p.new_parent_ino,
                InodePatch {
                    generation,
                    size: SizeEdit::Adjust { remove: lost, grow: after },
                    sec,
                    nsec,
                    modified: true,
                },
                "new parent inode not found",
                "new parent inode item truncated",
            ),
        );
    }
    assert(ops_of(ops@) =~= start + inode_ops(p@, generation, old_name@, new_name@, sec, nsec));
}

impl Transaction {
    /// Prepare a transaction that renames `old_name` in `old_parent_path` to
    /// `new_name` in `new_parent_path`.
    pub fn rename<D: ReadAt>(
        fs: &Btrfs<D>,
        old_parent_path: &str,
        old_name: &str,
        new_parent_path: &str,
        new_name: &str,
        now_sec: u64,
        now_nsec: u32,
    ) -> (r: Result<Self>)
        ensures
            tracks_some(
                fs.steady(),
                r,
                |seen: Lookups|
                    renamed(
                        fs@,
                        old_parent_path@,
                        old_name@,
                        new_parent_path@,
                        new_name@,
                        now_sec,
                        now_nsec,
                        seen,
                    ),
            ),
    {
        assert(possible(fs.steady(), Lookups { csum: true, fst: true, shape: true }));
        check_writeable(fs)?;
        let plan = match resolve_rename(
            fs,
            old_parent_path,
            old_name,
            new_parent_path,
            new_name,
        )? {
            RenameResolution::NoOp(ino) => {
                return Transaction::update_inode_mtime(fs, ino, now_sec, now_nsec);
            },
            RenameResolution::Proceed(p) => p,
        };
        let ghost p = plan@;
        let generation: u64 = new_generation(fs);
        let allocator = FreeSpaceMap::read(fs)?;
        let mut ops: Vec<TreeOp> = Vec::new();
        let mut spans: Vec<Span> = Vec::new();
        assert(ops_of(ops@) =~= Seq::<OpV>::empty());
        assert(spans@ =~= Seq::<Span>::empty());
        if let Some(x) = &plan.dest_replacement {
            rename_delete_destination(fs, &mut ops, x, plan.new_parent_ino, new_name)?;
            spans = copy_vec(&x.spans);
        }
        rename_swap_dirent(&mut ops, &plan, generation, old_name, new_name);
        rename_update_inodes(
            &mut ops,
            &plan,
            generation,
            old_name,
            new_name,
            now_sec,
            now_nsec,
        );
        proof {
            let items = replaced_items(fs@, p)->Ok_0;
            assert(ops_of(ops@) =~= rename_ops(
                p,
                generation,
                items,
                old_name@,
                new_name@,
                now_sec,
                now_nsec,
            ));
        }
        lose_spans(fs, generation, allocator, &ops, &spans)
    }
}

} // verus!
