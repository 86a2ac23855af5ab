//! Deleting files and empty directories.

use vstd::prelude::*;

use crate::bytes::copy_range;
use crate::device::ReadAt;
use crate::error::{text, tracks, Fault, LuksError, Outcome, Result};
use crate::fs::btrfs::crc32c::name_hash;
use crate::fs::btrfs::files::{disk_item, entry_key, gives, object_items, resolved, first_typed, Located};
use crate::fs::btrfs::inode::{any_named_for, dir_entries, find_name_for, parse_dir_entries};
use crate::fs::btrfs::tree::{
    items_of, Item, Key, DIR_INDEX_KEY, DIR_ITEM_KEY, FS_TREE_OBJECTID,
};
use crate::fs::btrfs::volume::{Btrfs, FsV};
use crate::fs::btrfs::write::converge::{
    converge_and_finalize, file_changes, finalized, looked_up, only_files, possible, ChangesV,
    Lookups,
};
use crate::fs::btrfs::write::cow::agrees;
use crate::fs::btrfs::write::edit::{EditV, InodePatch, LeafEdit, SizeEdit};
use crate::fs::btrfs::write::extent_tree::ExtentTree;
use crate::fs::btrfs::write::gate::{check_writeable, refusal};
use crate::fs::btrfs::write::load::{extent_tree_of, space_on};
use crate::fs::btrfs::write::space::{BgV, FreeSpaceMap};
use crate::fs::btrfs::write::txn::create::{directory_at, find_directory};
use crate::fs::btrfs::write::txn::{
    files_root, name_weight, new_generation, next_generation, touch, touch_op, tracks_some,
    weight_of, Transaction, TxnV,
};
use crate::fs::btrfs::write::unlink::{
    any_shared, collect_spans, data_dropped, deletions, drop_data, find_index, has_shared,
    index_of, keys_of, leaf_keys, pair_spans, push_deletions, span_pairs, spans_of, Span,
};
use crate::fs::btrfs::write::workspace::{
    fresh_state, ops_of, steps, OpV, TreeOp, Workspace,
};
use crate::fs::path::{name_part, parent_part, split_last, trim_slashes, trimmed};
use crate::fs::FileType;
use crate::text::{bytes_of, utf8};

verus! {

/// The message for a file in another subvolume.
pub open spec fn elsewhere() -> Seq<char> {
    "subvolume file deletion not yet supported"@
}

/// Why a file cannot be deleted.
pub open spec fn deletion_refusal(fs: FsV, x: Located, path: Seq<char>) -> Outcome<()> {
    if x.tree.objectid != FS_TREE_OBJECTID {
        Err(Fault::UnsupportedFsFeature(elsewhere()))
    } else {
        let links = if x.inode.nlink > 1 {
            Err(
                Fault::UnsupportedFsFeature(
                    "deleting files with hardlinks (nlink > 1) is not supported"@,
                ),
            )
        } else {
            Ok(())
        };
        if x.inode.kind() == FileType::Directory {
            match first_typed(fs, fs.fs_tree.bytenr, x.inode.objectid, DIR_INDEX_KEY) {
                Err(e) => Err(e),
                Ok(Some(_)) => Err(Fault::DirectoryNotEmpty(path)),
                Ok(None) => links,
            }
        } else if x.inode.kind() != FileType::Regular {
            Err(Fault::UnsupportedFsFeature("deleting non-regular files is not supported"@))
        } else {
            links
        }
    }
}

/// Whether directory `dir` lists inode `ino` as `name` under the name's hash.
pub open spec fn entry_present(fs: FsV, dir: u64, name: Seq<u8>, ino: u64, path: Seq<char>) -> Outcome<
    (),
> {
    match disk_item(fs, fs.fs_tree.bytenr, entry_key(dir, name)) {
        Err(e) => Err(e),
        Ok(None) => Err(Fault::NotFound(path)),
        Ok(Some(d)) => match dir_entries(d) {
            Err(e) => Err(e),
            Ok(items) => if any_named_for(items, name, ino) {
                Ok(())
            } else {
                Err(Fault::NotFound(path))
            },
        },
    }
}

/// What is to be deleted.
pub struct Doomed {
    /// The directory's inode number.
    pub dir: u64,
    pub ino: u64,
    /// The file's index in the directory.
    pub index: u64,
    /// The file's items.
    pub items: Seq<Item>,
    /// The file's data extents.
    pub spans: Seq<Span>,
}

/// What deleting the file `x`, called `name` in directory `dir`, takes along.
pub open spec fn doom(fs: FsV, dir: u64, x: Located, name: Seq<u8>, path: Seq<char>) -> Outcome<
    Doomed,
> {
    let ino = x.inode.objectid;
    match deletion_refusal(fs, x, path) {
        Err(e) => Err(e),
        Ok(_) => match entry_present(fs, dir, name, ino, path) {
            Err(e) => Err(e),
            Ok(_) => match index_of(fs, ino, dir, name, "dir index not found for file"@) {
                Err(e) => Err(e),
                Ok(index) => match object_items(fs, fs.fs_tree.bytenr, ino) {
                    Err(e) => Err(e),
                    Ok(items) => match spans_of(items) {
                        Err(e) => Err(e),
                        Ok(spans) => match extent_tree_of(fs) {
                            Err(e) => Err(e),
                            Ok(t) => if any_shared(t.extents, spans) {
                                Err(
                                    Fault::UnsupportedFsFeature(
                                        "deleting a file with shared data extents (refs > 1) is not supported"@,
                                    ),
                                )
                            } else {
                                Ok(Doomed { dir, ino, index, items, spans })
                            },
                        },
                    },
                },
            },
        },
    }
}

/// The changes that delete a file: its two entries go, the directory shrinks
/// by the name, and the file's items go.
pub open spec fn deletion_ops(d: Doomed, generation: u64, name: Seq<char>, sec: u64, nsec: u32) -> Seq<
    OpV,
> {
    seq![
        OpV::Edit {
            key: entry_key(d.dir, utf8(name)),
            edit: EditV::DropEntry {
                name: utf8(name),
                ino: d.ino,
                missing: "dir item not found"@,
            },
        },
        OpV::Edit {
            key: Key { objectid: d.dir, item_type: DIR_INDEX_KEY, offset: d.index },
            edit: EditV::Delete,
        },
        touch(
            d.dir,
            InodePatch {
                generation,
                size: SizeEdit::Adjust { remove: name_weight(name), grow: 0 },
                sec,
                nsec,
                modified: true,
            },
            "parent inode not found"@,
            "parent inode item truncated"@,
        ),
    ] + deletions(keys_of(d.items))
}

/// What dropping `spans` changes, besides the default subvolume.
pub open spec fn drop_changes(
    fs: FsV,
    generation: u64,
    root: (u64, u8),
    csum_root: Option<(u64, u8)>,
    spans: Seq<Span>,
) -> ChangesV {
    ChangesV { csum_root, dropped: span_pairs(spans), ..only_files(fs, generation, root) }
}

/// The transaction that file changes `ops` and the loss of `spans` come to.
pub open spec fn spans_lost(
    fs: FsV,
    generation: u64,
    space: Seq<BgV>,
    ops: Seq<OpV>,
    spans: Seq<Span>,
    seen: Lookups,
) -> Outcome<TxnV> {
    match steps(fs, generation, FS_TREE_OBJECTID, fresh_state(space), files_root(fs), ops) {
        Err(e) => Err(e),
        Ok((s, root)) => match data_dropped(fs, generation, s, spans, seen.csum) {
            Err(e) => Err(e),
            Ok((t, csum_root)) => finalized(
                fs,
                drop_changes(fs, generation, root, csum_root, spans),
                t,
                seen.fst,
            ),
        },
    }
}

/// Change the default subvolume, drop `spans`, and finish the transaction.
pub fn lose_spans<D: ReadAt>(
    fs: &Btrfs<D>,
    generation: u64,
    allocator: FreeSpaceMap,
    ops: &Vec<TreeOp>,
    spans: &Vec<Span>,
) -> (r: Result<Transaction>)
    ensures
        tracks_some(
            fs.steady(),
            r,
            |seen: Lookups|
                spans_lost(fs@, generation, allocator@, ops_of(ops@), spans@, seen),
        ),
{
    assert(possible(fs.steady(), Lookups { csum: true, fst: true, shape: true }));
    let mut w = Workspace::new(allocator);
    let tree = fs.fs_tree();
    let root = w.apply_all(fs, generation, FS_TREE_OBJECTID, (tree.bytenr, tree.level), ops)?;
    let ghost s = w@;
    let dropped = drop_data(fs, generation, &mut w, spans);
    let ghost csum = choose|seen: bool| #[trigger]
        looked_up(fs.steady(), seen) && agrees(
            fs.steady(),
            dropped,
            data_dropped(fs@, generation, s, spans@, seen),
            |x: Option<(u64, u8)>| (w@, x),
        );
    assert(possible(fs.steady(), Lookups { csum, fst: true, shape: true }));
    let csum_root = dropped?;
    let mut c = file_changes(fs, generation, root);
    c.csum_root = csum_root;
    c.dropped = pair_spans(spans);
    assert(c@ == drop_changes(fs@, generation, root, csum_root, spans@));
    let ghost t = w@;
    let r = converge_and_finalize(fs, c, w);
    proof {
        let fst = choose|fst: bool| #[trigger]
            looked_up(fs.steady(), fst) && tracks(fs.steady(), r, finalized(fs@, c@, t, fst));
        assert(possible(fs.steady(), Lookups { csum, fst, shape: true }));
    }
    r
}

/// The transaction that deletes the file at `path`.
pub open spec fn file_deleted(fs: FsV, path: Seq<char>, sec: u64, nsec: u32, seen: Lookups) -> Outcome<
    TxnV,
> {
    let g = next_generation(fs);
    let bare = trimmed(path);
    let name = name_part(bare);
    match refusal(fs) {
        Some(e) => Err(e),
        None => if bare.len() == 0 {
            Err(Fault::IsADirectory("/"@))
        } else {
            match directory_at(fs, parent_part(bare), elsewhere()) {
                Err(e) => Err(e),
                Ok(p) => match resolved(fs, fs.fs_tree, path) {
                    Err(e) => Err(e),
                    Ok(x) => match doom(fs, p.inode.objectid, x, utf8(name), path) {
                        Err(e) => Err(e),
                        Ok(d) => match space_on(fs) {
                            Err(e) => Err(e),
                            Ok(space) => spans_lost(
                                fs,
                                g,
                                space,
                                deletion_ops(d, g, name, sec, nsec),
                                d.spans,
                                seen,
                            ),
                        },
                    },
                },
            }
        },
    }
}

fn check_deletable<D: ReadAt>(fs: &Btrfs<D>, x: &Located, path: &str) -> (r: Result<()>)
    ensures
        gives(fs.steady(), r, deletion_refusal(fs@, *x, path@)),
{
    if x.tree.objectid != FS_TREE_OBJECTID {
        return Err(
            LuksError::UnsupportedFsFeature(text("subvolume file deletion not yet supported")),
        );
    }
    let kind = x.inode.file_type();
    if kind.is_dir() {
        let entry = fs.first_of_type(fs.fs_tree().bytenr, x.inode.objectid, DIR_INDEX_KEY)?;
        if entry.is_some() {
            return Err(LuksError::DirectoryNotEmpty(text(path)));
        }
    } else if !kind.is_file() {
        return Err(
            LuksError::UnsupportedFsFeature(text("deleting non-regular files is not supported")),
        );
    }
    if x.inode.nlink > 1 {
        return Err(
            LuksError::UnsupportedFsFeature(
                text("deleting files with hardlinks (nlink > 1) is not supported"),
            ),
        );
    }
    Ok(())
}

fn check_entry<D: ReadAt>(fs: &Btrfs<D>, dir: u64, name: &[u8], ino: u64, path: &str) -> (r: Result<
    (),
>)
    ensures
        gives(fs.steady(), r, entry_present(fs@, dir, name@, ino, path@)),
{
    let key = Key::new(dir, DIR_ITEM_KEY, name_hash(name));
    match fs.find_item(fs.fs_tree().bytenr, &key)? {
        None => Err(LuksError::NotFound(text(path))),
        Some(d) => {
            let items = parse_dir_entries(d.as_slice())?;
            if find_name_for(&items, name, ino) {
                Ok(())
            } else {
                Err(LuksError::NotFound(text(path)))
            }
        },
    }
}

impl Transaction {
    /// Prepare a transaction that deletes the regular file or empty directory
    /// at `path`.
    pub fn delete_file<D: ReadAt>(fs: &Btrfs<D>, path: &str, now_sec: u64, now_nsec: u32) -> (r: Result<
        Self,
    >)
        ensures
            tracks_some(
                fs.steady(),
                r,
                |seen: Lookups| file_deleted(fs@, path@, now_sec, now_nsec, seen),
            ),
    {
        assert(possible(fs.steady(), Lookups { csum: true, fst: true, shape: true }));
        check_writeable(fs)?;
        let bare = trim_slashes(path);
        if bare.unicode_len() == 0 {
            return Err(LuksError::IsADirectory(text("/")));
        }
        let (parent_path, filename) = split_last(bare);
        let parent = find_directory(
            fs,
            parent_path,
            "subvolume file deletion not yet supported",
        )?;
        let x = fs.resolve_no_follow(fs.fs_tree(), path)?;
        let dir: u64 = parent.inode.objectid;
        let ino: u64 = x.inode.objectid;
        let name = bytes_of(filename);
        check_deletable(fs, &x, path)?;
        check_entry(fs, dir, name, ino, path)?;
        let index: u64 = find_index(fs, ino, dir, name, "dir index not found for file")?;
        let items = fs.items_of_object(fs.fs_tree().bytenr, ino)?;
        let spans = collect_spans(&items)?;
        let extents = ExtentTree::read(fs)?;
        if has_shared(&extents.extents, &spans) {
            return Err(
                LuksError::UnsupportedFsFeature(
                    text(
                        "deleting a file with shared data extents (refs > 1) is not supported",
                    ),
                ),
            );
        }
        let ghost d = Doomed { dir, ino, index, items: items_of(items@), spans: spans@ };
        let generation: u64 = new_generation(fs);
        let allocator = FreeSpaceMap::read(fs)?;
        let mut ops: Vec<TreeOp> = Vec::new();
        ops.push(
            TreeOp::Edit {
                key: Key::new(dir, DIR_ITEM_KEY, name_hash(name)),
                edit: LeafEdit::DropEntry {
                    name: copy_range(name, 0, name.len()),
                    ino,
                    missing: "dir item not found",
                },
            },
        );
        ops.push(
            TreeOp::Edit { key: Key::new(dir, DIR_INDEX_KEY, index), edit: LeafEdit::Delete },
        );
        let patch = InodePatch {
            generation,
            size: SizeEdit::Adjust { remove: weight_of(filename), grow: 0 },
            sec: now_sec,
            nsec: now_nsec,
            modified: true,
        };
        ops.push(touch_op(dir, patch, "parent inode not found", "parent inode item truncated"));
        let ghost head = ops_of(ops@);
        push_deletions(&mut ops, &leaf_keys(&items));
        proof {
            assert(name@.subrange(0, name@.len() as int) =~= name@);
            assert(head =~= deletion_ops(d, generation, filename@, now_sec, now_nsec).take(3));
            assert(ops_of(ops@) =~= deletion_ops(d, generation, filename@, now_sec, now_nsec));
        }
        lose_spans(fs, generation, allocator, &ops, &spans)
    }
}

} // verus!
