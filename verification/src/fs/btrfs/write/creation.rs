//! What is created is found, and nothing else changes.

use vstd::prelude::*;

use crate::error::Fault;
use crate::fs::btrfs::files::{disk_item, entry_in, entry_key};
use crate::fs::btrfs::inode::{dir_entries, has_name, DirItemV};
use crate::fs::btrfs::search::{find_item, MAX_DEPTH};
use crate::fs::btrfs::tree::{Key, DIR_INDEX_KEY, INODE_REF_KEY};
use crate::fs::btrfs::volume::FsV;
use crate::fs::btrfs::write::change::{
    all_low, commits_clear, files_change_as_told, files_of, fit_to_change,
};
use crate::fs::btrfs::write::commit::committed;
use crate::fs::btrfs::write::converge::Lookups;
use crate::fs::btrfs::write::entries::{
    appended_is_named, dir_item_reads_back, entries_joined, new_dir_item,
};
use crate::fs::btrfs::write::grove::state_of;
use crate::fs::btrfs::write::payload::dir_item_bytes;
use crate::fs::btrfs::write::readback::committed_is_found;
use crate::fs::btrfs::write::space::BgV;
use crate::fs::btrfs::write::tree_map::{
    contents, map_after, map_after_all, search_reads_contents,
};
use crate::fs::btrfs::write::txn::{
    entry_ops, files_changed, files_root, inode_key, NewEntryV,
};
use crate::fs::btrfs::write::workspace::fresh_state;
use crate::seqs::first_idx_is;
use crate::text::utf8;

verus! {

/// The keys that a new file adds or changes.
pub open spec fn entry_keys(e: NewEntryV) -> Set<Key> {
    set![
        inode_key(e.parent),
        entry_key(e.parent, utf8(e.name)),
        Key { objectid: e.parent, item_type: DIR_INDEX_KEY, offset: e.index },
        inode_key(e.ino),
        Key { objectid: e.ino, item_type: INODE_REF_KEY, offset: e.parent },
    ]
}

/// What the operations for a new file do to a map.
pub proof fn entry_on_map(m: Map<Key, Seq<u8>>, e: NewEntryV, inode: Seq<u8>)
    requires
        e.ino != e.parent,
    ensures
        ({
            let n = map_after_all(m, entry_ops(e, inode));
            let item = dir_item_bytes(e.ino, e.generation, e.kind, utf8(e.name));
            let key = entry_key(e.parent, utf8(e.name));
            &&& n.contains_key(inode_key(e.ino)) && n[inode_key(e.ino)] == inode
            &&& n.contains_key(key)
            &&& n[key] == if e.shares && m.contains_key(key) {
                m[key] + item
            } else {
                item
            }
            &&& forall|k: Key|
                !entry_keys(e).contains(k) ==> #[trigger] n.contains_key(k) == m.contains_key(k)
            &&& forall|k: Key|
                !entry_keys(e).contains(k) && m.contains_key(k) ==> #[trigger] n[k] == m[k]
        }),
{
    let ops = entry_ops(e, inode);
    let m1 = map_after(m, ops[0]);
    let m2 = map_after(m1, ops[1]);
    let m3 = map_after(m2, ops[2]);
    let m4 = map_after(m3, ops[3]);
    let m5 = map_after(m4, ops[4]);
    let o0 = ops.take(0);
    let o1 = ops.take(1);
    let o2 = ops.take(2);
    let o3 = ops.take(3);
    let o4 = ops.take(4);
    assert(ops.drop_last() =~= o4);
    assert(o4.drop_last() =~= o3);
    assert(o3.drop_last() =~= o2);
    assert(o2.drop_last() =~= o1);
    assert(o1.drop_last() =~= o0);
    assert(map_after_all(m, o0) == m);
    assert(map_after_all(m, o1) == m1);
    assert(map_after_all(m, o2) == m2);
    assert(map_after_all(m, o3) == m3);
    assert(map_after_all(m, o4) == m4);
    assert(map_after_all(m, ops) == m5);
}

/// A created file is found: a search finds its inode and its entry in the
/// directory, and gives what it gave before under every key that the new file
/// has nothing to do with.
pub proof fn created_is_found(
    fs: FsV,
    space: Seq<BgV>,
    e: NewEntryV,
    inode: Seq<u8>,
    seen: Lookups,
    k: Key,
)
    requires
        fit_to_change(fs, space),
        all_low(fs, e.generation, space, entry_ops(e, inode), seen),
        files_changed(fs, e.generation, space, entry_ops(e, inode), seen) is Ok,
        e.ino != e.parent,
        fs.fs_tree.level < MAX_DEPTH,
        files_of(files_changed(fs, e.generation, space, entry_ops(e, inode), seen)->Ok_0).1
            < MAX_DEPTH,
    ensures
        ({
            let t = files_changed(fs, e.generation, space, entry_ops(e, inode), seen)->Ok_0;
            let at = t.fs_tree.bytenr;
            let key = entry_key(e.parent, utf8(e.name));
            let item = dir_item_bytes(e.ino, e.generation, e.kind, utf8(e.name));
            &&& find_item(fs, t.blocks, at, inode_key(e.ino)) == Ok::<Option<Seq<u8>>, Fault>(
                Some(inode),
            )
            &&& find_item(fs, t.blocks, at, key) == Ok::<Option<Seq<u8>>, Fault>(
                Some(
                    match disk_item(fs, fs.fs_tree.bytenr, key) {
                        Ok(Some(d)) => if e.shares {
                            d + item
                        } else {
                            item
                        },
                        _ => item,
                    },
                ),
            )
            &&& !entry_keys(e).contains(k) ==> find_item(fs, t.blocks, at, k) == disk_item(
                fs,
                fs.fs_tree.bytenr,
                k,
            )
        }),
{
    let ops = entry_ops(e, inode);
    let t = files_changed(fs, e.generation, space, ops, seen)->Ok_0;
    let s0 = fresh_state(space);
    let files = files_root(fs);
    let key = entry_key(e.parent, utf8(e.name));
    let m = contents(fs, s0, files);
    files_change_as_told(fs, e.generation, space, ops, seen);
    entry_on_map(m, e, inode);
    search_reads_contents(fs, s0, files, key);
    search_reads_contents(fs, s0, files, k);
    search_reads_contents(fs, state_of(t), files_of(t), inode_key(e.ino));
    search_reads_contents(fs, state_of(t), files_of(t), key);
    search_reads_contents(fs, state_of(t), files_of(t), k);
}

/// A volume with the directory item of a new file has the file's entry, if the
/// name was free.
pub proof fn new_entry_found(fs: FsV, gs: FsV, root: u64, e: NewEntryV)
    requires
        utf8(e.name).len() <= u16::MAX,
        entry_in(fs, fs.fs_tree.bytenr, e.parent, utf8(e.name)) == Ok::<Option<DirItemV>, Fault>(
            None,
        ),
        ({
            let key = entry_key(e.parent, utf8(e.name));
            let item = dir_item_bytes(e.ino, e.generation, e.kind, utf8(e.name));
            disk_item(gs, root, key) == Ok::<Option<Seq<u8>>, Fault>(
                Some(
                    match disk_item(fs, fs.fs_tree.bytenr, key) {
                        Ok(Some(d)) => if e.shares {
                            d + item
                        } else {
                            item
                        },
                        _ => item,
                    },
                ),
            )
        }),
    ensures
        entry_in(gs, root, e.parent, utf8(e.name)) == Ok::<Option<DirItemV>, Fault>(
            Some(new_dir_item(e.ino, e.kind, utf8(e.name))),
        ),
{
    let name = utf8(e.name);
    let key = entry_key(e.parent, name);
    dir_item_reads_back(e.ino, e.generation, e.kind, name);
    let new = new_dir_item(e.ino, e.kind, name);
    let none = Seq::<DirItemV>::empty();
    assert(none + seq![new] =~= seq![new]);
    match disk_item(fs, fs.fs_tree.bytenr, key) {
        Ok(Some(d)) => {
            if e.shares {
                entries_joined(d, dir_item_bytes(e.ino, e.generation, e.kind, name));
                appended_is_named(dir_entries(d)->Ok_0, new);
            } else {
                first_idx_is(none, has_name(name), 0);
                appended_is_named(none, new);
            }
        },
        _ => {
            first_idx_is(none, has_name(name), 0);
            appended_is_named(none, new);
        },
    }
}

/// Once a transaction that creates a file is committed, looking the name up in
/// the directory on the device finds the file's inode number and kind.
///
/// The name was free, and no device write of the commit damages another.
pub proof fn created_is_found_on_device(
    fs: FsV,
    len: Option<u64>,
    space: Seq<BgV>,
    e: NewEntryV,
    inode: Seq<u8>,
    seen: Lookups,
)
    requires
        fit_to_change(fs, space),
        all_low(fs, e.generation, space, entry_ops(e, inode), seen),
        files_changed(fs, e.generation, space, entry_ops(e, inode), seen) is Ok,
        e.ino != e.parent,
        entry_in(fs, fs.fs_tree.bytenr, e.parent, utf8(e.name)) == Ok::<Option<DirItemV>, Fault>(
            None,
        ),
        utf8(e.name).len() <= u16::MAX,
        fs.fs_tree.level < MAX_DEPTH,
        ({
            let t = files_changed(fs, e.generation, space, entry_ops(e, inode), seen)->Ok_0;
            commits_clear(fs, len, t)
        }),
    ensures
        ({
            let t = files_changed(fs, e.generation, space, entry_ops(e, inode), seen)->Ok_0;
            let gs = committed(fs, len, t)->Ok_0.0;
            &&& entry_in(gs, gs.fs_tree.bytenr, e.parent, utf8(e.name)) == Ok::<
                Option<DirItemV>,
                Fault,
            >(Some(new_dir_item(e.ino, e.kind, utf8(e.name))))
            &&& disk_item(gs, gs.fs_tree.bytenr, inode_key(e.ino)) == Ok::<
                Option<Seq<u8>>,
                Fault,
            >(Some(inode))
        }),
{
    let ops = entry_ops(e, inode);
    let t = files_changed(fs, e.generation, space, ops, seen)->Ok_0;
    let gs = committed(fs, len, t)->Ok_0.0;
    let name = utf8(e.name);
    let key = entry_key(e.parent, name);
    files_change_as_told(fs, e.generation, space, ops, seen);
    created_is_found(fs, space, e, inode, seen, key);
    committed_is_found(fs, len, t, files_of(t), key);
    committed_is_found(fs, len, t, files_of(t), inode_key(e.ino));
    new_entry_found(fs, gs, gs.fs_tree.bytenr, e);
}

} // verus!
