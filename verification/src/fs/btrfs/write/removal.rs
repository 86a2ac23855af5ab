//! What is deleted is gone, and nothing else changes.

use vstd::prelude::*;

use crate::bytes::{enc64, group_enc_len, le32, le64, le64_of_enc, splice};
use crate::error::Fault;
use crate::fs::btrfs::files::{
    disk_item, entry_in, entry_key, inode_of, object_items, resolved,
};
use crate::fs::btrfs::inode::{dir_entries, parse_inode};
use crate::fs::btrfs::search::{find_item, MAX_DEPTH};
use crate::fs::btrfs::tree::{Item, Key, DIR_INDEX_KEY, FS_TREE_OBJECTID};
use crate::fs::btrfs::volume::FsV;
use crate::fs::btrfs::write::booking::keys_end;
use crate::fs::btrfs::write::change::{
    allowed_parts, commits_clear, drop_low, edits_stay_low, files_lose_as_told, files_of, fit_for_data, is_edit,
    map_after_parts,
};
use crate::fs::btrfs::write::commit::committed;
use crate::fs::btrfs::write::contents::sound;
use crate::fs::btrfs::write::counters::counts_right;
use crate::fs::btrfs::write::counting::{loss_counts_right, well_counted};
use crate::fs::btrfs::write::converge::Lookups;
use crate::fs::btrfs::write::edit::{edited, patched, EditV, InodePatch, SizeEdit};
use crate::fs::btrfs::write::entries::{dropped_is_not_named, others_readable, others_stay};
use crate::fs::btrfs::write::extent_tree::cap64;
use crate::fs::btrfs::write::grove::state_of;
use crate::fs::btrfs::write::holdings::{dropped_is_unlisted, unlists};
use crate::fs::btrfs::write::load::space_on;
use crate::fs::btrfs::write::moving::other_name_kept;
use crate::fs::btrfs::write::readback::committed_is_found;
use crate::fs::btrfs::write::space::BgV;
use crate::fs::btrfs::write::sweep::{between, range_reads_contents};
use crate::fs::btrfs::write::tree_map::{
    all_allowed, allowed, contents, map_after, map_after_all, search_reads_contents,
};
use crate::fs::btrfs::write::txn::create::directory_at;
use crate::fs::btrfs::write::txn::delete::{
    deletion_ops, doom, elsewhere, file_deleted, Doomed,
};
use crate::fs::btrfs::write::txn::{files_root, inode_key, name_weight, next_generation};
use crate::fs::btrfs::write::unlink::{deletions, keys_of, span_pairs};
use crate::fs::btrfs::write::workspace::fresh_state;
use crate::fs::path::{name_part, parent_part, trimmed};
use crate::text::utf8;

verus! {

/// Deleting keys from a map, one after the other.
pub proof fn deletions_on_map(m: Map<Key, Seq<u8>>, keys: Seq<Key>)
    ensures
        ({
            let n = map_after_all(m, deletions(keys));
            &&& forall|k: Key| #[trigger]
                n.contains_key(k) == (m.contains_key(k) && !keys.contains(k))
            &&& forall|k: Key| n.contains_key(k) ==> #[trigger] n[k] == m[k]
        }),
    decreases keys.len(),
{
    let ops = deletions(keys);
    let n = map_after_all(m, ops);
    if keys.len() > 0 {
        let front = keys.drop_last();
        assert(ops.drop_last() =~= deletions(front));
        deletions_on_map(m, front);
        let l = map_after_all(m, deletions(front));
        assert(n == l.remove(keys.last()));
        assert forall|k: Key| #[trigger] n.contains_key(k) == (m.contains_key(k) && !keys.contains(
            k,
        )) by {
            assert(l.contains_key(k) == (m.contains_key(k) && !front.contains(k)));
            if keys.contains(k) {
                let i = choose|i: int| 0 <= i < keys.len() && keys[i] == k;
                if i < front.len() {
                    assert(front[i] == k);
                    assert(front.contains(k));
                }
            }
            if front.contains(k) {
                let i = choose|i: int| 0 <= i < front.len() && front[i] == k;
                assert(keys[i] == k);
            }
            assert(keys[keys.len() - 1] == keys.last());
        }
        assert forall|k: Key| n.contains_key(k) implies #[trigger] n[k] == m[k] by {
            assert(l.contains_key(k));
            assert(l[k] == m[k]);
        }
    }
}

/// The key of the index entry of a file to be deleted.
pub open spec fn index_key(d: Doomed) -> Key {
    Key { objectid: d.dir, item_type: DIR_INDEX_KEY, offset: d.index }
}

/// Dropping the entry of a file to be deleted.
pub open spec fn drop_entry(d: Doomed, name: Seq<u8>) -> EditV {
    EditV::DropEntry { name, ino: d.ino, missing: "dir item not found"@ }
}

/// Whether the deletion of a file has something to do with a key.
pub open spec fn concerned(d: Doomed, name: Seq<u8>, k: Key) -> bool {
    k.objectid == d.ino || k == entry_key(d.dir, name) || k == index_key(d) || k == inode_key(d.dir)
}

/// How the inode of the directory of a deleted file changes.
pub open spec fn shrinking(generation: u64, name: Seq<char>, sec: u64, nsec: u32) -> InodePatch {
    InodePatch {
        generation,
        size: SizeEdit::Adjust { remove: name_weight(name), grow: 0 },
        sec,
        nsec,
        modified: true,
    }
}

/// A patched inode item has the size that the patch leaves.
pub proof fn adjusted_size_reads_back(ino: u64, d: Seq<u8>, p: InodePatch, remove: u64, grow: u64)
    requires
        d.len() >= 160,
        p.size == (SizeEdit::Adjust { remove, grow }),
    ensures
        parse_inode(ino, d) is Ok,
        parse_inode(ino, patched(d, p)) matches Ok(i) && i.size == cap64(
            parse_inode(ino, d)->Ok_0.size.saturating_sub(remove) + grow,
        ),
{
    broadcast use group_enc_len;

    let r = patched(d, p);
    let a = splice(d, 8, enc64(p.generation));
    let size = cap64(le64(a, 16).saturating_sub(remove) + grow);
    assert(a.subrange(16, 24) =~= d.subrange(16, 24));
    assert(a[16] == d[16] && a[17] == d[17] && a[18] == d[18] && a[19] == d[19]);
    assert(a[20] == d[20] && a[21] == d[21] && a[22] == d[22] && a[23] == d[23]);
    assert(le64(a, 16) == le64(d, 16)) by {
        reveal(le64);
        reveal(le32);
    }
    assert(r.len() == d.len());
    assert(r.subrange(16, 24) =~= enc64(size));
    le64_of_enc(r, 16, size);
}

/// What the operations that delete a file do to a map.
proof fn deletion_on_map(
    m: Map<Key, Seq<u8>>,
    d: Doomed,
    generation: u64,
    name: Seq<char>,
    sec: u64,
    nsec: u32,
)
    requires
        d.dir != d.ino,
        all_allowed(m, deletion_ops(d, generation, name, sec, nsec)),
        forall|k: Key| #[trigger] keys_of(d.items).contains(k) ==> k.objectid == d.ino,
        forall|k: Key| #[trigger]
            m.contains_key(k) && k.objectid == d.ino ==> keys_of(d.items).contains(k),
    ensures
        ({
            let n = map_after_all(m, deletion_ops(d, generation, name, sec, nsec));
            let key = entry_key(d.dir, utf8(name));
            &&& forall|k: Key| k.objectid == d.ino ==> !#[trigger] n.contains_key(k)
            &&& !n.contains_key(index_key(d))
            &&& n.contains_key(key) == (edited(m[key], drop_entry(d, utf8(name))) matches Ok(Some(_)))
            &&& edited(m[key], drop_entry(d, utf8(name))) matches Ok(Some(x)) ==> n[key] == x
            &&& m.contains_key(inode_key(d.dir))
            &&& m[inode_key(d.dir)].len() >= 160
            &&& n.contains_key(inode_key(d.dir))
            &&& n[inode_key(d.dir)] == patched(
                m[inode_key(d.dir)],
                shrinking(generation, name, sec, nsec),
            )
            &&& forall|k: Key|
                !concerned(d, utf8(name), k) ==> #[trigger] n.contains_key(k) == m.contains_key(k)
            &&& forall|k: Key|
                !concerned(d, utf8(name), k) && m.contains_key(k) ==> #[trigger] n[k] == m[k]
        }),
{
    let ops = deletion_ops(d, generation, name, sec, nsec);
    let head = ops.take(3);
    let keys = keys_of(d.items);
    assert(ops =~= head + deletions(keys));
    map_after_parts(m, head, deletions(keys));
    let m1 = map_after(m, ops[0]);
    let m2 = map_after(m1, ops[1]);
    let m3 = map_after(m2, ops[2]);
    let h0 = ops.take(0);
    let h1 = ops.take(1);
    let h2 = ops.take(2);
    assert(head.drop_last() =~= h2);
    assert(h2.drop_last() =~= h1);
    assert(h1.drop_last() =~= h0);
    assert(map_after_all(m, h0) == m);
    assert(map_after_all(m, h1) == m1);
    assert(map_after_all(m, h2) == m2);
    assert(map_after_all(m, head) == m3);
    allowed_parts(m, head, deletions(keys));
    assert(all_allowed(m, head));
    assert(allowed(m2, ops[2]));
    let ik = inode_key(d.dir);
    assert(m2.contains_key(ik) == m.contains_key(ik) && m2[ik] == m[ik]);
    assert(!keys.contains(ik));
    deletions_on_map(m3, keys);
    let n = map_after_all(m3, deletions(keys));
    assert forall|k: Key| k.objectid == d.ino implies !#[trigger] n.contains_key(k) by {
        assert(m3.contains_key(k) == m.contains_key(k));
    }
    let key = entry_key(d.dir, utf8(name));
    assert(!keys.contains(key));
    assert(!keys.contains(index_key(d)));
    assert(!m3.contains_key(index_key(d)));
    assert(m3.contains_key(key) == m1.contains_key(key));
    assert forall|k: Key| !concerned(d, utf8(name), k) implies #[trigger] n.contains_key(k)
        == m.contains_key(k) by {
        assert(!keys.contains(k));
        assert(m3.contains_key(k) == m.contains_key(k));
    }
    assert forall|k: Key| !concerned(d, utf8(name), k) && m.contains_key(k) implies #[trigger] n[k]
        == m[k] by {
        assert(n.contains_key(k));
        assert(m3[k] == m[k]);
    }
}

/// The last component of a path to be deleted.
pub open spec fn doomed_name(path: Seq<char>) -> Seq<char> {
    name_part(trimmed(path))
}

/// What deleting the file at `path` takes along, where it can be deleted.
pub open spec fn doomed_at(fs: FsV, path: Seq<char>) -> Doomed {
    doom(
        fs,
        directory_at(fs, parent_part(trimmed(path)), elsewhere())->Ok_0.inode.objectid,
        resolved(fs, fs.fs_tree, path)->Ok_0,
        utf8(doomed_name(path)),
        path,
    )->Ok_0
}

/// A volume that the file at `path` can be deleted on: its trees are in order
/// and stay within reach, and the file is not its own directory.
pub open spec fn fit_to_delete(fs: FsV, path: Seq<char>, sec: u64, nsec: u32, seen: Lookups) -> bool {
    let space = space_on(fs)->Ok_0;
    let d = doomed_at(fs, path);
    let g = next_generation(fs);
    &&& fit_for_data(fs, space, seen.csum)
    &&& files_root(fs).1 < MAX_DEPTH
    &&& drop_low(
        fs,
        g,
        space,
        deletion_ops(d, g, doomed_name(path), sec, nsec),
        d.spans,
        seen,
    )
    &&& d.dir != d.ino
}

/// All items of an inode lie in the range that is collected for it.
pub proof fn objects_collected(fs: FsV, space: Seq<BgV>, ino: u64)
    requires
        fit_for_data(fs, space, true) || fit_for_data(fs, space, false),
        files_root(fs).1 < MAX_DEPTH,
    ensures
        object_items(fs, fs.fs_tree.bytenr, ino) matches Ok(items) && forall|k: Key| #[trigger]
            keys_of(items).contains(k) == (k.objectid == ino && contents(
                fs,
                fresh_state(space),
                files_root(fs),
            ).contains_key(k)),
{
    let lo = Key { objectid: ino, item_type: 0, offset: 0 };
    let hi = Key { objectid: ino, item_type: 255, offset: u64::MAX };
    let s = fresh_state(space);
    let files = files_root(fs);
    let m = contents(fs, s, files);
    range_reads_contents(fs, s, files, lo, hi);
    let items = object_items(fs, fs.fs_tree.bytenr, ino)->Ok_0;
    let keys = keys_of(items);
    assert forall|k: Key| #[trigger] keys.contains(k) == (k.objectid == ino && m.contains_key(
        k,
    )) by {
        assert(between(k, lo, hi) == (k.objectid == ino));
        if keys.contains(k) {
            let i = choose|i: int| 0 <= i < keys.len() && keys[i] == k;
            assert(items[i].key == k);
            assert(items.contains(items[i]));
        }
        if k.objectid == ino && m.contains_key(k) {
            let x = Item { key: k, data: m[k] };
            assert(items.contains(x));
            let i = choose|i: int| 0 <= i < items.len() && items[i] == x;
            assert(keys[i] == k);
        }
    }
}

/// The transaction that deletes a file does to the tree of the files what the
/// deletion says.
proof fn deletion_as_told(fs: FsV, path: Seq<char>, sec: u64, nsec: u32, seen: Lookups)
    requires
        file_deleted(fs, path, sec, nsec, seen) is Ok,
        fit_to_delete(fs, path, sec, nsec, seen),
    ensures
        ({
            let t = file_deleted(fs, path, sec, nsec, seen)->Ok_0;
            let g = next_generation(fs);
            &&& sound(fs, t.blocks, files_of(t).0, files_of(t).1, 0, keys_end())
            &&& files_of(t).1 < MAX_DEPTH
            &&& t.generation == g
            &&& all_allowed(
                contents(fs, fresh_state(space_on(fs)->Ok_0), files_root(fs)),
                deletion_ops(doomed_at(fs, path), g, doomed_name(path), sec, nsec),
            )
            &&& contents(fs, state_of(t), files_of(t)) == map_after_all(
                contents(fs, fresh_state(space_on(fs)->Ok_0), files_root(fs)),
                deletion_ops(doomed_at(fs, path), g, doomed_name(path), sec, nsec),
            )
        }),
{
    let d = doomed_at(fs, path);
    let g = next_generation(fs);
    let ops = deletion_ops(d, g, doomed_name(path), sec, nsec);
    assert forall|i: int| 0 <= i < ops.len() implies is_edit(#[trigger] ops[i]) by {
        if i >= 3 {
            assert(ops[i] == deletions(keys_of(d.items))[i - 3]);
        }
    }
    let space = space_on(fs)->Ok_0;
    edits_stay_low(fs, g, FS_TREE_OBJECTID, fresh_state(space), files_root(fs), ops);
    files_lose_as_told(fs, g, space, ops, d.spans, seen);
}

/// The directory of a deleted file has shrunk by the weight of the name.
pub open spec fn shrunk(gs: FsV, root: u64, fs: FsV, d: Doomed, name: Seq<char>) -> bool {
    inode_of(fs, fs.fs_tree.bytenr, d.dir) matches Ok(i) && (inode_of(
        gs,
        root,
        d.dir,
    ) matches Ok(j) && j.size == i.size.saturating_sub(name_weight(name)))
}

/// A deleted file is gone: among the transaction's blocks a search finds no item
/// of its inode and no index of it in the directory, and in the directory item
/// the entry is missing; under every other key it finds what it found before,
/// but for the directory's own inode.
pub proof fn deleted_is_gone(
    fs: FsV,
    path: Seq<char>,
    sec: u64,
    nsec: u32,
    seen: Lookups,
    k: Key,
)
    requires
        file_deleted(fs, path, sec, nsec, seen) is Ok,
        fit_to_delete(fs, path, sec, nsec, seen),
    ensures
        ({
            let t = file_deleted(fs, path, sec, nsec, seen)->Ok_0;
            let at = t.fs_tree.bytenr;
            let d = doomed_at(fs, path);
            let name = utf8(doomed_name(path));
            let key = entry_key(d.dir, name);
            let gone = Ok::<Option<Seq<u8>>, Fault>(None);
            &&& k.objectid == d.ino ==> find_item(fs, t.blocks, at, k) == gone
            &&& find_item(fs, t.blocks, at, index_key(d)) == gone
            &&& disk_item(fs, fs.fs_tree.bytenr, key) matches Ok(Some(x)) && (find_item(
                fs,
                t.blocks,
                at,
                key,
            ) == match edited(x, drop_entry(d, name)) {
                Ok(Some(y)) => Ok::<Option<Seq<u8>>, Fault>(Some(y)),
                _ => gone,
            })
            &&& !concerned(d, name, k) ==> find_item(fs, t.blocks, at, k) == disk_item(
                fs,
                fs.fs_tree.bytenr,
                k,
            )
        }),
{
    let space = space_on(fs)->Ok_0;
    let d = doomed_at(fs, path);
    let g = next_generation(fs);
    let name = doomed_name(path);
    let t = file_deleted(fs, path, sec, nsec, seen)->Ok_0;
    let s0 = fresh_state(space);
    let files = files_root(fs);
    let m = contents(fs, s0, files);
    let key = entry_key(d.dir, utf8(name));
    objects_collected(fs, space, d.ino);
    deletion_as_told(fs, path, sec, nsec, seen);
    deletion_on_map(m, d, g, name, sec, nsec);
    search_reads_contents(fs, s0, files, key);
    search_reads_contents(fs, s0, files, k);
    search_reads_contents(fs, state_of(t), files_of(t), index_key(d));
    search_reads_contents(fs, state_of(t), files_of(t), key);
    search_reads_contents(fs, state_of(t), files_of(t), k);
}

/// What is left of a directory item does not have the entry.
proof fn entry_gone(gs: FsV, root: u64, d: Doomed, name: Seq<u8>, x: Seq<u8>)
    requires
        dir_entries(x) is Ok,
        disk_item(gs, root, entry_key(d.dir, name)) == match edited(x, drop_entry(d, name)) {
            Ok(Some(y)) => Ok::<Option<Seq<u8>>, Fault>(Some(y)),
            _ => Ok(None),
        },
    ensures
        ({
            let old = dir_entries(x)->Ok_0;
            entry_in(gs, root, d.dir, name) matches Ok(found) && {
                &&& found matches Some(e) ==> e.location.objectid != d.ino
                &&& (forall|i: int|
                    0 <= i < old.len() && (#[trigger] old[i]).name == name
                        ==> old[i].location.objectid == d.ino) ==> found is None
            }
        }),
{
    others_readable(x, name, d.ino);
    others_stay(x, name, d.ino);
    dropped_is_not_named(dir_entries(x)->Ok_0, name, d.ino);
}

/// Once the deletion is committed, looking the name up in the directory on the
/// device does not find the file, and nothing at all if the name stood for the
/// file alone; the file's inode is not found, and all else is found as before.
/// The directory has shrunk by the weight of the name, and the generation is the
/// next one.
///
/// No device write of the commit damages another.
pub proof fn deleted_is_gone_on_device(
    fs: FsV,
    len: Option<u64>,
    path: Seq<char>,
    sec: u64,
    nsec: u32,
    seen: Lookups,
    k: Key,
)
    requires
        file_deleted(fs, path, sec, nsec, seen) is Ok,
        fit_to_delete(fs, path, sec, nsec, seen),
        ({
            let t = file_deleted(fs, path, sec, nsec, seen)->Ok_0;
            commits_clear(fs, len, t)
        }),
    ensures
        ({
            let t = file_deleted(fs, path, sec, nsec, seen)->Ok_0;
            let gs = committed(fs, len, t)->Ok_0.0;
            let d = doomed_at(fs, path);
            let name = utf8(doomed_name(path));
            let old = dir_entries(
                disk_item(fs, fs.fs_tree.bytenr, entry_key(d.dir, name))->Ok_0->Some_0,
            )->Ok_0;
            &&& t.generation == next_generation(fs)
            &&& shrunk(gs, gs.fs_tree.bytenr, fs, d, doomed_name(path))
            &&& entry_in(gs, gs.fs_tree.bytenr, d.dir, name) matches Ok(found) && {
                &&& found matches Some(e) ==> e.location.objectid != d.ino
                &&& (forall|i: int|
                    0 <= i < old.len() && (#[trigger] old[i]).name == name
                        ==> old[i].location.objectid == d.ino) ==> found is None
            }
            &&& k.objectid == d.ino ==> disk_item(gs, gs.fs_tree.bytenr, k) == Ok::<
                Option<Seq<u8>>,
                Fault,
            >(None)
            &&& !concerned(d, name, k) ==> disk_item(gs, gs.fs_tree.bytenr, k) == disk_item(
                fs,
                fs.fs_tree.bytenr,
                k,
            )
        }),
{
    let d = doomed_at(fs, path);
    let t = file_deleted(fs, path, sec, nsec, seen)->Ok_0;
    let gs = committed(fs, len, t)->Ok_0.0;
    let name = utf8(doomed_name(path));
    let key = entry_key(d.dir, name);
    deletion_as_told(fs, path, sec, nsec, seen);
    deleted_is_gone(fs, path, sec, nsec, seen, k);
    committed_is_found(fs, len, t, files_of(t), key);
    committed_is_found(fs, len, t, files_of(t), k);
    let x = disk_item(fs, fs.fs_tree.bytenr, key)->Ok_0->Some_0;
    entry_gone(gs, gs.fs_tree.bytenr, d, name, x);
    let space = space_on(fs)->Ok_0;
    let s0 = fresh_state(space);
    let m = contents(fs, s0, files_root(fs));
    let g = next_generation(fs);
    let ik = inode_key(d.dir);
    objects_collected(fs, space, d.ino);
    deletion_on_map(m, d, g, doomed_name(path), sec, nsec);
    let p = shrinking(g, doomed_name(path), sec, nsec);
    adjusted_size_reads_back(d.dir, m[ik], p, name_weight(doomed_name(path)), 0);
    search_reads_contents(fs, s0, files_root(fs), ik);
    search_reads_contents(fs, state_of(t), files_of(t), ik);
    committed_is_found(fs, len, t, files_of(t), ik);
}

/// Once the deletion is committed, every other name stands for what it stood for.
///
/// No device write of the commit damages another.
pub proof fn deleted_keeps_names(
    fs: FsV,
    len: Option<u64>,
    path: Seq<char>,
    sec: u64,
    nsec: u32,
    seen: Lookups,
    dir: u64,
    q: Seq<u8>,
)
    requires
        file_deleted(fs, path, sec, nsec, seen) is Ok,
        fit_to_delete(fs, path, sec, nsec, seen),
        ({
            let t = file_deleted(fs, path, sec, nsec, seen)->Ok_0;
            commits_clear(fs, len, t)
        }),
        ({
            let d = doomed_at(fs, path);
            dir != d.ino && !(dir == d.dir && q == utf8(doomed_name(path)))
        }),
    ensures
        ({
            let t = file_deleted(fs, path, sec, nsec, seen)->Ok_0;
            let gs = committed(fs, len, t)->Ok_0.0;
            entry_in(gs, gs.fs_tree.bytenr, dir, q) == entry_in(fs, fs.fs_tree.bytenr, dir, q)
        }),
{
    let d = doomed_at(fs, path);
    let t = file_deleted(fs, path, sec, nsec, seen)->Ok_0;
    let name = utf8(doomed_name(path));
    let key = entry_key(d.dir, name);
    let e = entry_key(dir, q);
    deleted_is_gone_on_device(fs, len, path, sec, nsec, seen, e);
    if e == key {
        deletion_as_told(fs, path, sec, nsec, seen);
        deleted_is_gone(fs, path, sec, nsec, seen, key);
        committed_is_found(fs, len, t, files_of(t), key);
        let x = disk_item(fs, fs.fs_tree.bytenr, key)->Ok_0->Some_0;
        others_readable(x, name, d.ino);
        others_stay(x, name, d.ino);
        other_name_kept(dir_entries(x)->Ok_0, name, d.ino, q);
    }
}

/// Once the deletion is committed, every other inode is of the kind it was.
///
/// No device write of the commit damages another.
pub proof fn deleted_keeps_kinds(
    fs: FsV,
    len: Option<u64>,
    path: Seq<char>,
    sec: u64,
    nsec: u32,
    seen: Lookups,
    ino: u64,
)
    requires
        file_deleted(fs, path, sec, nsec, seen) is Ok,
        fit_to_delete(fs, path, sec, nsec, seen),
        ({
            let t = file_deleted(fs, path, sec, nsec, seen)->Ok_0;
            commits_clear(fs, len, t)
        }),
        ino != doomed_at(fs, path).ino,
        inode_of(fs, fs.fs_tree.bytenr, ino) is Ok,
    ensures
        ({
            let t = file_deleted(fs, path, sec, nsec, seen)->Ok_0;
            let gs = committed(fs, len, t)->Ok_0.0;
            inode_of(gs, gs.fs_tree.bytenr, ino) matches Ok(j) && j.objectid == ino && j.kind()
                == inode_of(fs, fs.fs_tree.bytenr, ino)->Ok_0.kind()
        }),
{
    let d = doomed_at(fs, path);
    let t = file_deleted(fs, path, sec, nsec, seen)->Ok_0;
    let ik = inode_key(ino);
    deleted_is_gone_on_device(fs, len, path, sec, nsec, seen, ik);
    if ino == d.dir {
        let space = space_on(fs)->Ok_0;
        let s0 = fresh_state(space);
        let m = contents(fs, s0, files_root(fs));
        let g = next_generation(fs);
        let p = shrinking(g, doomed_name(path), sec, nsec);
        deletion_as_told(fs, path, sec, nsec, seen);
        objects_collected(fs, space, d.ino);
        deletion_on_map(m, d, g, doomed_name(path), sec, nsec);
        search_reads_contents(fs, s0, files_root(fs), ik);
        search_reads_contents(fs, state_of(t), files_of(t), ik);
        committed_is_found(fs, len, t, files_of(t), ik);
        patched_keeps_mode(m[ik], p);
    }
}

/// A patched inode item has the mode it had.
proof fn patched_keeps_mode(d: Seq<u8>, p: InodePatch)
    requires
        d.len() >= 160,
    ensures
        patched(d, p).len() == d.len(),
        le32(patched(d, p), 52) == le32(d, 52),
{
    broadcast use group_enc_len;

    let r = patched(d, p);
    assert(r.len() == d.len());
    assert(r[52] == d[52] && r[53] == d[53] && r[54] == d[54] && r[55] == d[55]);
    reveal(le32);
}

/// The extent tree that a deletion leads to has no item for any of the file's
/// data extents, and lists every other as before.
pub proof fn deleted_is_unlisted(fs: FsV, path: Seq<char>, sec: u64, nsec: u32, seen: Lookups)
    requires
        file_deleted(fs, path, sec, nsec, seen) is Ok,
        fit_to_delete(fs, path, sec, nsec, seen),
    ensures
        ({
            let t = file_deleted(fs, path, sec, nsec, seen)->Ok_0;
            unlists(fs, t, space_on(fs)->Ok_0, span_pairs(doomed_at(fs, path).spans))
        }),
{
    let d = doomed_at(fs, path);
    let g = next_generation(fs);
    let ops = deletion_ops(d, g, doomed_name(path), sec, nsec);
    assert forall|i: int| 0 <= i < ops.len() implies is_edit(#[trigger] ops[i]) by {
        if i >= 3 {
            assert(ops[i] == deletions(keys_of(d.items))[i - 3]);
        }
    }
    let space = space_on(fs)->Ok_0;
    edits_stay_low(fs, g, FS_TREE_OBJECTID, fresh_state(space), files_root(fs), ops);
    dropped_is_unlisted(fs, g, space, ops, d.spans, seen);
}

/// A deletion leaves the used counters right if they were.
pub proof fn deletion_counts_right(
    fs: FsV,
    path: Seq<char>,
    sec: u64,
    nsec: u32,
    seen: Lookups,
)
    requires
        file_deleted(fs, path, sec, nsec, seen) is Ok,
        fit_to_delete(fs, path, sec, nsec, seen),
    ensures
        well_counted(fs, seen) ==> counts_right(fs, file_deleted(fs, path, sec, nsec, seen)->Ok_0),
{
    let d = doomed_at(fs, path);
    let g = next_generation(fs);
    let ops = deletion_ops(d, g, doomed_name(path), sec, nsec);
    assert forall|i: int| 0 <= i < ops.len() implies is_edit(#[trigger] ops[i]) by {
        if i >= 3 {
            assert(ops[i] == deletions(keys_of(d.items))[i - 3]);
        }
    }
    let space = space_on(fs)->Ok_0;
    edits_stay_low(fs, g, FS_TREE_OBJECTID, fresh_state(space), files_root(fs), ops);
    if well_counted(fs, seen) {
        loss_counts_right(fs, g, space, ops, d.spans, seen);
    }
}

} // verus!
