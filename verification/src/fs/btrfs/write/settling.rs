//! What inodes and indices record once a file was moved or deleted: the sizes and
//! times of the directories, the file's own change time, and the way back.

use vstd::prelude::*;

use crate::bytes::{has16, has64};
use crate::error::Fault;
use crate::fs::btrfs::files::{disk_item, resolved};
use crate::fs::btrfs::formats::{
    built_ref_is_stored, patched_inode_is_stored, resized as resized_to, stores_inode,
    InodeFields,
};
use crate::fs::btrfs::tree::{Item, Key, FS_TREE_OBJECTID};
use crate::fs::btrfs::volume::FsV;
use crate::fs::btrfs::write::change::{
    commits_clear, edits_stay_low, files_lose_as_told, is_edit, op_key, ops_elsewhere,
};
use crate::fs::btrfs::write::commit::committed;
use crate::fs::btrfs::write::converge::Lookups;
use crate::fs::btrfs::write::edit::{edited, patched, EditV, InodePatch, SizeEdit};
use crate::fs::btrfs::write::load::space_on;
use crate::fs::btrfs::write::making::{back_item, inode_item};
use crate::fs::btrfs::write::moving::{
    fit_to_move, found_on_device, lost_spans, plan_of, split_at, under,
};
use crate::fs::btrfs::write::payload::inode_ref_bytes;
use crate::fs::btrfs::write::removal::{doomed_at, doomed_name, fit_to_delete, objects_collected};
use crate::fs::btrfs::write::tree_map::{
    all_allowed, contents, map_after, map_after_all,
};
use crate::fs::btrfs::write::txn::delete::{deletion_ops, file_deleted, Doomed};
use crate::fs::btrfs::write::txn::rename::{
    entry_move_ops, inode_ops, rename_ops, rename_plan, renamed, replaced_items, replacement_ops,
    MoveV, PlanV,
};
use crate::fs::btrfs::write::txn::{files_root, next_generation};
use crate::fs::btrfs::write::unlink::{deletions, keys_of};
use crate::fs::btrfs::write::workspace::{fresh_state, OpV};
use crate::text::utf8;

verus! {

/// A key that one edit of many operations is about changes as the edit says.
proof fn only_edit(m: Map<Key, Seq<u8>>, ops: Seq<OpV>, i: int, key: Key, edit: EditV)
    requires
        all_allowed(m, ops),
        0 <= i < ops.len(),
        ops[i] == (OpV::Edit { key, edit }),
        forall|j: int| 0 <= j < ops.len() && j != i ==> op_key(#[trigger] ops[j]) != key,
    ensures
        m.contains_key(key),
        edited(m[key], edit) is Ok,
        under(map_after_all(m, ops), key) == edited(m[key], edit)->Ok_0,
{
    split_at(m, ops, i);
    let head = ops.take(i);
    let rest = ops.skip(i + 1);
    assert forall|j: int| 0 <= j < head.len() implies op_key(#[trigger] head[j]) != key by {
        assert(head[j] == ops[j]);
    }
    assert forall|j: int| 0 <= j < rest.len() implies op_key(#[trigger] rest[j]) != key by {
        assert(rest[j] == ops[i + 1 + j]);
    }
    ops_elsewhere(m, head, key);
    let a = map_after_all(m, head);
    let b = map_after(a, ops[i]);
    ops_elsewhere(b, rest, key);
}

/// A key that one insertion of many operations is about holds what was inserted.
proof fn only_insertion(m: Map<Key, Seq<u8>>, ops: Seq<OpV>, i: int, key: Key, data: Seq<u8>)
    requires
        all_allowed(m, ops),
        0 <= i < ops.len(),
        ops[i] == (OpV::Insert { key, data }),
        forall|j: int| i < j < ops.len() ==> op_key(#[trigger] ops[j]) != key,
    ensures
        under(map_after_all(m, ops), key) == Some(data),
{
    split_at(m, ops, i);
    let rest = ops.skip(i + 1);
    assert forall|j: int| 0 <= j < rest.len() implies op_key(#[trigger] rest[j]) != key by {
        assert(rest[j] == ops[i + 1 + j]);
    }
    ops_elsewhere(map_after(map_after_all(m, ops.take(i)), ops[i]), rest, key);
}

/// What inode `ino` records went from `was` to `now`, where it was `was`.
pub open spec fn became(fs: FsV, gs: FsV, ino: u64, was: InodeFields, now: InodeFields) -> bool {
    &&& disk_item(fs, fs.fs_tree.bytenr, inode_item(ino)) matches Ok(Some(_))
    &&& stores_inode(disk_item(fs, fs.fs_tree.bytenr, inode_item(ino))->Ok_0->0, was) ==> {
        &&& disk_item(gs, gs.fs_tree.bytenr, inode_item(ino)) matches Ok(Some(_))
        &&& stores_inode(disk_item(gs, gs.fs_tree.bytenr, inode_item(ino))->Ok_0->0, now)
    }
}

/// A directory that was `was` once it lost `removed` bytes of names and got `grown`.
pub open spec fn dir_after(
    fs: FsV,
    was: InodeFields,
    removed: int,
    grown: int,
    sec: u64,
    nsec: u32,
) -> InodeFields {
    InodeFields {
        transid: (fs.sb.generation + 1) as u64,
        size: (was.size - removed + grown) as u64,
        sequence: (was.sequence + 1) as u64,
        ctime: (sec, nsec),
        mtime: (sec, nsec),
        ..was
    }
}

/// The patch of a directory does what it is for.
proof fn dir_patched(
    fs: FsV,
    d: Seq<u8>,
    was: InodeFields,
    p: InodePatch,
    remove: u64,
    grow: u64,
)
    requires
        stores_inode(d, was),
        was.sequence < u64::MAX,
        p.generation == fs.sb.generation + 1,
        p.size == (SizeEdit::Adjust { remove, grow }),
        p.modified,
        remove <= was.size,
        was.size - remove + grow <= u64::MAX,
    ensures
        stores_inode(patched(d, p), dir_after(fs, was, remove as int, grow as int, p.sec, p.nsec)),
{
    patched_inode_is_stored(d, was, p);
    let (size, nbytes) = choose|size: u64, nbytes: u64| #[trigger]
        resized_to(was.size, was.nbytes, p.size, size, nbytes) && stores_inode(
            patched(d, p),
            InodeFields {
                transid: p.generation,
                size,
                nbytes,
                sequence: (was.sequence + 1) as u64,
                ctime: (p.sec, p.nsec),
                mtime: if p.modified {
                    (p.sec, p.nsec)
                } else {
                    was.mtime
                },
                ..was
            },
        );
    assert(size == was.size - remove + grow);
}

/// The operations of a rename in front of those on inodes.
spec fn front_ops(
    p: PlanV,
    generation: u64,
    items: Seq<Item>,
    old_name: Seq<char>,
    new_name: Seq<char>,
) -> Seq<OpV> {
    let first = match p.replaced {
        Some(x) => replacement_ops(x, p.to, new_name, items),
        None => Seq::empty(),
    };
    first + entry_move_ops(p, generation, old_name, new_name)
}

/// The operations of a rename in front of those on inodes are about no inode item
/// of the file or of the directories.
proof fn moves_spare_inodes(
    p: PlanV,
    generation: u64,
    items: Seq<Item>,
    old_name: Seq<char>,
    new_name: Seq<char>,
    ino: u64,
)
    requires
        p.replaced matches Some(x) ==> x.ino != ino && forall|k: Key| #[trigger]
            keys_of(items).contains(k) ==> k.objectid == x.ino,
    ensures
        forall|j: int|
            0 <= j < front_ops(p, generation, items, old_name, new_name).len() ==> op_key(
                #[trigger] front_ops(p, generation, items, old_name, new_name)[j],
            ) != inode_item(ino),
{
    let first = match p.replaced {
        Some(x) => replacement_ops(x, p.to, new_name, items),
        None => Seq::empty(),
    };
    let moved = entry_move_ops(p, generation, old_name, new_name);
    let ops = front_ops(p, generation, items, old_name, new_name);
    assert forall|j: int| 0 <= j < ops.len() implies op_key(#[trigger] ops[j]) != inode_item(
        ino,
    ) by {
        if j < first.len() {
            let a = deletions(keys_of(items));
            if j < a.len() {
                assert(first[j] == a[j]);
                assert(keys_of(items).contains(keys_of(items)[j]));
            }
        } else {
            assert(ops[j] == moved[j - first.len()]);
        }
    }
}

/// An inode item goes from `d` by a patch to what a map holds.
pub open spec fn patched_in(
    m: Map<Key, Seq<u8>>,
    n: Map<Key, Seq<u8>>,
    ino: u64,
    patch: InodePatch,
) -> bool {
    &&& m.contains_key(inode_item(ino))
    &&& under(n, inode_item(ino)) == Some(patched(m[inode_item(ino)], patch))
}

/// The patch of a directory that loses and gets names.
pub open spec fn names_patch(g: u64, remove: u64, grow: u64, sec: u64, nsec: u32) -> InodePatch {
    InodePatch {
        generation: g,
        size: SizeEdit::Adjust { remove, grow },
        sec,
        nsec,
        modified: true,
    }
}

/// The patch of a file that was moved.
pub open spec fn moved_patch(g: u64, sec: u64, nsec: u32) -> InodePatch {
    InodePatch { generation: g, size: SizeEdit::Keep, sec, nsec, modified: false }
}

/// Twice a name.
pub open spec fn twice(name: Seq<char>) -> int {
    2 * utf8(name).len() as int
}

/// What the operations of a rename do to the inode items of the file and of the
/// directories.
proof fn rename_on_inodes(
    m: Map<Key, Seq<u8>>,
    p: PlanV,
    g: u64,
    items: Seq<Item>,
    old_name: Seq<char>,
    new_name: Seq<char>,
    sec: u64,
    nsec: u32,
)
    requires
        all_allowed(m, rename_ops(p, g, items, old_name, new_name, sec, nsec)),
        p.replaced matches Some(x) ==> x.ino != p.child && x.ino != p.from && x.ino != p.to
            && forall|k: Key| #[trigger] keys_of(items).contains(k) ==> k.objectid == x.ino,
        p.child != p.from,
        p.child != p.to,
        utf8(old_name).len() <= u16::MAX,
        utf8(new_name).len() <= u16::MAX,
    ensures
        ({
            let n = map_after_all(m, rename_ops(p, g, items, old_name, new_name, sec, nsec));
            let old = twice(old_name) as u64;
            let new = twice(new_name) as u64;
            let gone: u64 = if p.replaced is Some {
                new
            } else {
                0
            };
            let both = (old + gone) as u64;
            &&& patched_in(m, n, p.child, moved_patch(g, sec, nsec))
            &&& p.from == p.to ==> patched_in(m, n, p.from, names_patch(g, both, new, sec, nsec))
            &&& p.from != p.to ==> patched_in(m, n, p.from, names_patch(g, old, 0, sec, nsec))
            &&& p.from != p.to ==> patched_in(m, n, p.to, names_patch(g, gone, new, sec, nsec))
        }),
{
    let ops = rename_ops(p, g, items, old_name, new_name, sec, nsec);
    moves_spare_inodes(p, g, items, old_name, new_name, p.child);
    moves_spare_inodes(p, g, items, old_name, new_name, p.from);
    moves_spare_inodes(p, g, items, old_name, new_name, p.to);
    let front = front_ops(p, g, items, old_name, new_name);
    let last = inode_ops(p, g, old_name, new_name, sec, nsec);
    let n0 = front.len() as int;
    assert(ops == front + last);
    assert forall|j: int| 0 <= j < n0 implies op_key(#[trigger] ops[j]) != inode_item(p.child)
        && op_key(ops[j]) != inode_item(p.from) && op_key(ops[j]) != inode_item(p.to) by {
        assert(ops[j] == front[j]);
    }
    assert(ops[n0] == last[0]);
    assert(ops[n0 + 1] == last[1]);
    if p.from == p.to {
        assert(ops.len() == n0 + 2);
        only_edit(m, ops, n0, inode_item(p.child), last[0]->edit);
        only_edit(m, ops, n0 + 1, inode_item(p.from), last[1]->edit);
    } else {
        assert(ops.len() == n0 + 3);
        assert(ops[n0 + 2] == last[2]);
        only_edit(m, ops, n0, inode_item(p.child), last[0]->edit);
        only_edit(m, ops, n0 + 1, inode_item(p.from), last[1]->edit);
        only_edit(m, ops, n0 + 2, inode_item(p.to), last[2]->edit);
    }
}

/// Once a rename is committed: the directory that the file left is shorter by twice
/// the old name, the one that it came to is longer by twice the new one, unless
/// that name was there before; both were modified. The file itself only changed.
/// Its way back leads to the new directory, under the new name and its index
/// there, and to the old one no more.
pub proof fn renamed_settles(
    fs: FsV,
    len: Option<u64>,
    old_dir: Seq<char>,
    old_name: Seq<char>,
    new_dir: Seq<char>,
    new_name: Seq<char>,
    sec: u64,
    nsec: u32,
    seen: Lookups,
    file: InodeFields,
    left: InodeFields,
    reached: InodeFields,
)
    requires
        renamed(fs, old_dir, old_name, new_dir, new_name, sec, nsec, seen) is Ok,
        rename_plan(fs, old_dir, old_name, new_dir, new_name) matches Ok(MoveV::Go(_)),
        fit_to_move(
            fs,
            plan_of(fs, old_dir, old_name, new_dir, new_name),
            old_name,
            new_name,
            sec,
            nsec,
            seen,
        ),
        utf8(old_name).len() <= u16::MAX,
        utf8(new_name).len() <= u16::MAX,
        fs.sb.generation < u64::MAX,
        ({
            let p = plan_of(fs, old_dir, old_name, new_dir, new_name);
            p.child != p.from && p.child != p.to
        }),
        ({
            let t = renamed(fs, old_dir, old_name, new_dir, new_name, sec, nsec, seen)->Ok_0;
            commits_clear(fs, len, t)
        }),
        file.sequence < u64::MAX,
        left.sequence < u64::MAX,
        reached.sequence < u64::MAX,
        left.size >= 2 * utf8(old_name).len() + 2 * utf8(new_name).len(),
        reached.size >= 2 * utf8(new_name).len(),
        left.size <= 0x7FFF_FFFF_FFFF_FFFF,
        reached.size <= 0x7FFF_FFFF_FFFF_FFFF,
    ensures
        ({
            let t = renamed(fs, old_dir, old_name, new_dir, new_name, sec, nsec, seen)->Ok_0;
            let gs = committed(fs, len, t)->Ok_0.0;
            let p = plan_of(fs, old_dir, old_name, new_dir, new_name);
            let from = resolved(fs, fs.fs_tree, old_dir)->Ok_0.inode.objectid;
            let to = resolved(fs, fs.fs_tree, new_dir)->Ok_0.inode.objectid;
            let old = 2 * utf8(old_name).len() as int;
            let new = 2 * utf8(new_name).len() as int;
            let gone = if p.replaced is Some {
                new
            } else {
                0
            };
            &&& became(
                fs,
                gs,
                p.child,
                file,
                InodeFields {
                    transid: (fs.sb.generation + 1) as u64,
                    sequence: (file.sequence + 1) as u64,
                    ctime: (sec, nsec),
                    ..file
                },
            )
            &&& from != to ==> became(fs, gs, from, left, dir_after(fs, left, old, 0, sec, nsec))
            &&& from != to ==> became(
                fs,
                gs,
                to,
                reached,
                dir_after(fs, reached, gone, new, sec, nsec),
            )
            &&& from == to ==> became(
                fs,
                gs,
                from,
                left,
                dir_after(fs, left, old + gone, new, sec, nsec),
            )
            &&& disk_item(gs, gs.fs_tree.bytenr, back_item(p.child, to)) matches Ok(Some(d))
                && has64(d, 0, p.new_index as int) && has16(d, 8, utf8(new_name).len() as int)
                && d.skip(10) == utf8(new_name)
            &&& from != to ==> disk_item(gs, gs.fs_tree.bytenr, back_item(p.child, from)) == Ok::<
                Option<Seq<u8>>,
                Fault,
            >(None)
        }),
{
    let t = renamed(fs, old_dir, old_name, new_dir, new_name, sec, nsec, seen)->Ok_0;
    let gs = committed(fs, len, t)->Ok_0.0;
    let p = plan_of(fs, old_dir, old_name, new_dir, new_name);
    let space = space_on(fs)->Ok_0;
    let g = next_generation(fs);
    let items = replaced_items(fs, p)->Ok_0;
    let ops = rename_ops(p, g, items, old_name, new_name, sec, nsec);
    let m = contents(fs, fresh_state(space), files_root(fs));
    files_lose_as_told(fs, g, space, ops, lost_spans(p), seen);
    if let Some(x) = p.replaced {
        objects_collected(fs, space, x.ino);
    }
    rename_on_inodes(m, p, g, items, old_name, new_name, sec, nsec);
    let old = twice(old_name) as u64;
    let new = twice(new_name) as u64;
    let gone: u64 = if p.replaced is Some {
        new
    } else {
        0
    };
    found_on_device(fs, len, t, space, inode_item(p.child));
    found_on_device(fs, len, t, space, inode_item(p.from));
    found_on_device(fs, len, t, space, inode_item(p.to));
    let d = m[inode_item(p.child)];
    if stores_inode(d, file) {
        patched_inode_is_stored(d, file, moved_patch(g, sec, nsec));
    }
    let l = m[inode_item(p.from)];
    if stores_inode(l, left) {
        if p.from == p.to {
            let both = (old + gone) as u64;
            dir_patched(fs, l, left, names_patch(g, both, new, sec, nsec), both, new);
        } else {
            dir_patched(fs, l, left, names_patch(g, old, 0, sec, nsec), old, 0);
        }
    }
    let r = m[inode_item(p.to)];
    if p.from != p.to && stores_inode(r, reached) {
        dir_patched(fs, r, reached, names_patch(g, gone, new, sec, nsec), gone, new);
    }
    // The way back.
    renamed_leads_back(m, p, g, items, old_name, new_name, sec, nsec);
    built_ref_is_stored(p.new_index, utf8(new_name));
    found_on_device(fs, len, t, space, back_item(p.child, p.to));
    found_on_device(fs, len, t, space, back_item(p.child, p.from));
}

proof fn renamed_leads_back(
    m: Map<Key, Seq<u8>>,
    p: PlanV,
    g: u64,
    items: Seq<Item>,
    old_name: Seq<char>,
    new_name: Seq<char>,
    sec: u64,
    nsec: u32,
)
    requires
        all_allowed(m, rename_ops(p, g, items, old_name, new_name, sec, nsec)),
        p.replaced matches Some(x) ==> x.ino != p.child && forall|k: Key| #[trigger]
            keys_of(items).contains(k) ==> k.objectid == x.ino,
    ensures
        ({
            let n = map_after_all(m, rename_ops(p, g, items, old_name, new_name, sec, nsec));
            &&& under(n, back_item(p.child, p.to)) == Some(
                inode_ref_bytes(p.new_index, utf8(new_name)),
            )
            &&& p.from != p.to ==> under(n, back_item(p.child, p.from)) is None
        }),
{
    let ops = rename_ops(p, g, items, old_name, new_name, sec, nsec);
    let first = match p.replaced {
        Some(x) => replacement_ops(x, p.to, new_name, items),
        None => Seq::empty(),
    };
    let moved = entry_move_ops(p, g, old_name, new_name);
    let last = inode_ops(p, g, old_name, new_name, sec, nsec);
    let n = first.len() as int;
    let back = inode_ref_bytes(p.new_index, utf8(new_name));
    assert(ops[n + 4] == moved[4]);
    assert forall|j: int| 0 <= j < ops.len() && j != n + 4 && j != n + 5 implies op_key(
        #[trigger] ops[j],
    ) != back_item(p.child, p.to) && op_key(ops[j]) != back_item(p.child, p.from) by {
        if j < n {
            let a = deletions(keys_of(items));
            if j < a.len() {
                assert(first[j] == a[j]);
                assert(keys_of(items).contains(keys_of(items)[j]));
            }
            assert(ops[j] == first[j]);
        } else if j < n + moved.len() {
            assert(ops[j] == moved[j - n]);
        } else {
            assert(ops[j] == last[j - n - moved.len()]);
        }
    }
    if p.from == p.to {
        assert(ops[n + 5] == last[0]);
        only_edit(m, ops, n + 4, back_item(p.child, p.from), moved[4]->edit);
    } else {
        assert(ops[n + 5] == moved[5]);
        only_edit(m, ops, n + 4, back_item(p.child, p.from), moved[4]->edit);
        only_insertion(m, ops, n + 5, back_item(p.child, p.to), back);
    }
}

/// Once a deletion is committed, the directory is shorter by twice the name and was
/// modified.
pub proof fn deleted_settles(
    fs: FsV,
    len: Option<u64>,
    path: Seq<char>,
    sec: u64,
    nsec: u32,
    seen: Lookups,
    was: InodeFields,
)
    requires
        file_deleted(fs, path, sec, nsec, seen) is Ok,
        fit_to_delete(fs, path, sec, nsec, seen),
        commits_clear(fs, len, file_deleted(fs, path, sec, nsec, seen)->Ok_0),
        doomed_at(fs, path).ino != doomed_at(fs, path).dir,
        fs.sb.generation < u64::MAX,
        was.sequence < u64::MAX,
        utf8(doomed_name(path)).len() <= u16::MAX,
        was.size >= 2 * utf8(doomed_name(path)).len(),
    ensures
        ({
            let t = file_deleted(fs, path, sec, nsec, seen)->Ok_0;
            let gs = committed(fs, len, t)->Ok_0.0;
            let shorter = 2 * utf8(doomed_name(path)).len() as int;
            became(
                fs,
                gs,
                doomed_at(fs, path).dir,
                was,
                dir_after(fs, was, shorter, 0, sec, nsec),
            )
        }),
{
    let t = file_deleted(fs, path, sec, nsec, seen)->Ok_0;
    let d = doomed_at(fs, path);
    let name = doomed_name(path);
    let space = space_on(fs)->Ok_0;
    let g = next_generation(fs);
    let ops = deletion_ops(d, g, name, sec, nsec);
    let m = contents(fs, fresh_state(space), files_root(fs));
    assert forall|i: int| 0 <= i < ops.len() implies is_edit(#[trigger] ops[i]) by {
        if i >= 3 {
            assert(ops[i] == deletions(keys_of(d.items))[i - 3]);
        }
    }
    edits_stay_low(fs, g, FS_TREE_OBJECTID, fresh_state(space), files_root(fs), ops);
    files_lose_as_told(fs, g, space, ops, d.spans, seen);
    objects_collected(fs, space, d.ino);
    deletion_on_dir(m, d, g, name, sec, nsec);
    found_on_device(fs, len, t, space, inode_item(d.dir));
    let i = m[inode_item(d.dir)];
    if stores_inode(i, was) {
        let two = twice(name) as u64;
        dir_patched(fs, i, was, names_patch(g, two, 0, sec, nsec), two, 0);
    }
}

/// What the operations of a deletion do to the inode item of the directory.
proof fn deletion_on_dir(
    m: Map<Key, Seq<u8>>,
    d: Doomed,
    g: u64,
    name: Seq<char>,
    sec: u64,
    nsec: u32,
)
    requires
        all_allowed(m, deletion_ops(d, g, name, sec, nsec)),
        forall|k: Key| #[trigger] keys_of(d.items).contains(k) ==> k.objectid == d.ino,
        d.ino != d.dir,
        utf8(name).len() <= u16::MAX,
    ensures
        patched_in(
            m,
            map_after_all(m, deletion_ops(d, g, name, sec, nsec)),
            d.dir,
            names_patch(g, twice(name) as u64, 0, sec, nsec),
        ),
{
    let ops = deletion_ops(d, g, name, sec, nsec);
    let k = inode_item(d.dir);
    let tail = deletions(keys_of(d.items));
    assert forall|j: int| 0 <= j < ops.len() && j != 2 implies op_key(#[trigger] ops[j]) != k by {
        if j >= 3 {
            assert(ops[j] == tail[j - 3]);
            assert(keys_of(d.items).contains(keys_of(d.items)[j - 3]));
        }
    }
    only_edit(m, ops, 2, k, ops[2]->edit);
}

} // verus!
