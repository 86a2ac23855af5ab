//! What is renamed is found under its new name, and no longer under the old one.

use vstd::prelude::*;

use crate::bytes::{group_enc_len, le32, le64};
use crate::error::Fault;
use crate::fs::btrfs::files::{disk_item, entry_in, entry_key, entry_named, inode_of, resolved};
use crate::fs::btrfs::inode::{dir_entries, has_name, parse_inode, DirItemV};
use crate::fs::btrfs::search::MAX_DEPTH;
use crate::fs::btrfs::tree::{
    Item, Key, DIR_INDEX_KEY, DIR_ITEM_KEY, FS_TREE_OBJECTID, INODE_REF_KEY,
};
use crate::fs::btrfs::volume::FsV;
use crate::fs::btrfs::write::change::{
    allowed_parts, commits_clear, drop_low, files_lose_as_told, files_of, fit_for_data,
    map_after_parts, op_key, ops_elsewhere,
};
use crate::fs::btrfs::write::commit::committed;
use crate::fs::btrfs::write::converge::Lookups;
use crate::fs::btrfs::write::edit::{patched, InodePatch, SizeEdit};
use crate::fs::btrfs::write::entries::{
    appended_is_named, dir_item_reads_back, dropped_is_not_named, entries_joined, new_dir_item,
    not_for, others_readable, others_stay,
};
use crate::fs::btrfs::write::grove::state_of;
use crate::fs::btrfs::write::load::space_on;
use crate::fs::btrfs::write::payload::dir_item_bytes;
use crate::fs::btrfs::write::readback::committed_is_found;
use crate::fs::btrfs::write::removal::{deletions_on_map, objects_collected};
use crate::fs::btrfs::write::space::BgV;
use crate::fs::btrfs::write::tree_map::{
    all_allowed, allowed, contents, map_after, map_after_all, orderly,
    search_reads_contents, stays_low,
};
use crate::fs::btrfs::write::txn::rename::{
    drop_index, drop_name, entry_move_ops, inode_ops, rename_ops, rename_plan, renamed,
    replaced_items, replacement_ops, MoveV, PlanV, ReplacedV,
};
use crate::fs::btrfs::write::txn::{files_root, inode_key, next_generation, touch, TxnV};
use crate::fs::btrfs::write::unlink::{deletions, keys_of, Span};
use crate::fs::btrfs::write::workspace::{fresh_state, OpV};
use crate::fs::FileType;
use crate::seqs::{first_idx, first_idx_is, first_idx_props};
use crate::text::utf8;

verus! {

/// What a map has under a key.
pub open spec fn under(m: Map<Key, Seq<u8>>, k: Key) -> Option<Seq<u8>> {
    if m.contains_key(k) {
        Some(m[k])
    } else {
        None
    }
}

/// Whether the entries of a directory item that may be missing can be read.
pub open spec fn readable(d: Option<Seq<u8>>) -> bool {
    d matches Some(x) ==> dir_entries(x) is Ok
}

/// The entries of a directory item that may be missing.
pub open spec fn listed(d: Option<Seq<u8>>) -> Seq<DirItemV> {
    match d {
        Some(x) => dir_entries(x)->Ok_0,
        None => Seq::empty(),
    }
}

/// The operation that drops an entry, on the entries.
proof fn drop_on_entries(m: Map<Key, Seq<u8>>, dir: u64, name: Seq<char>, ino: u64, missing: Seq<char>)
    requires
        allowed(m, drop_name(dir, name, ino, missing)),
        readable(under(m, entry_key(dir, utf8(name)))),
    ensures
        ({
            let k = entry_key(dir, utf8(name));
            let n = map_after(m, drop_name(dir, name, ino, missing));
            &&& readable(under(n, k))
            &&& listed(under(n, k)) == listed(under(m, k)).filter(not_for(utf8(name), ino))
        }),
{
    let k = entry_key(dir, utf8(name));
    let d = m[k];
    others_readable(d, utf8(name), ino);
    others_stay(d, utf8(name), ino);
}

/// The operation that appends an entry, on the entries.
proof fn append_on_entries(
    m: Map<Key, Seq<u8>>,
    k: Key,
    ino: u64,
    generation: u64,
    kind: u8,
    name: Seq<u8>,
)
    requires
        readable(under(m, k)),
        name.len() <= u16::MAX,
    ensures
        ({
            let item = dir_item_bytes(ino, generation, kind, name);
            let n = map_after(m, OpV::Append { key: k, data: item });
            &&& n.contains_key(k)
            &&& readable(under(n, k))
            &&& listed(under(n, k)) == listed(under(m, k)) + seq![new_dir_item(ino, kind, name)]
        }),
{
    let item = dir_item_bytes(ino, generation, kind, name);
    dir_item_reads_back(ino, generation, kind, name);
    if m.contains_key(k) {
        entries_joined(m[k], item);
    } else {
        assert(Seq::<DirItemV>::empty() + seq![new_dir_item(ino, kind, name)] =~= seq![
            new_dir_item(ino, kind, name),
        ]);
    }
}

/// A name that is not there is not there among fewer entries.
proof fn still_not_named(items: Seq<DirItemV>, keep: spec_fn(DirItemV) -> bool, name: Seq<u8>)
    requires
        entry_named(items, name) is None,
    ensures
        entry_named(items.filter(keep), name) is None,
{
    let f = has_name(name);
    let left = items.filter(keep);
    first_idx_props(items, f);
    first_idx_props(left, f);
    let i = first_idx(left, f);
    if i < left.len() {
        assert(f(left[i]));
        items.lemma_filter_contains_rev(keep, left[i]);
        let j = choose|j: int| 0 <= j < items.len() && items[j] == left[i];
        assert(f(items[j]));
    }
}

/// All entries with this name stand for inode `ino`.
pub open spec fn stands_for(items: Seq<DirItemV>, name: Seq<u8>, ino: u64) -> bool {
    forall|i: int|
        0 <= i < items.len() && (#[trigger] items[i]).name == name ==> items[i].location.objectid
            == ino
}

/// Operations on a map split at one of them.
pub proof fn split_at(m: Map<Key, Seq<u8>>, ops: Seq<OpV>, i: int)
    requires
        0 <= i < ops.len(),
        all_allowed(m, ops),
    ensures
        ({
            let a = map_after_all(m, ops.take(i));
            let b = map_after(a, ops[i]);
            &&& allowed(a, ops[i])
            &&& all_allowed(b, ops.skip(i + 1))
            &&& map_after_all(m, ops) == map_after_all(b, ops.skip(i + 1))
        }),
{
    let head = ops.take(i);
    let one = seq![ops[i]];
    let rest = ops.skip(i + 1);
    assert(ops =~= head + (one + rest));
    assert(one.drop_last() =~= Seq::<OpV>::empty());
    allowed_parts(m, head, one + rest);
    map_after_parts(m, head, one + rest);
    let a = map_after_all(m, head);
    allowed_parts(a, one, rest);
    map_after_parts(a, one, rest);
    assert(map_after_all(a, one.drop_last()) == a);
    assert(map_after_all(a, one) == map_after(a, ops[i]));
    assert(allowed(map_after_all(a, one.drop_last()), one.last()));
}

/// The changes that take the overwritten file away, on the directory items.
proof fn replacement_on_entries(
    m: Map<Key, Seq<u8>>,
    x: ReplacedV,
    to: u64,
    new_name: Seq<char>,
    items: Seq<Item>,
    k: Key,
)
    requires
        x.ino != to,
        k.item_type == DIR_ITEM_KEY,
        k.objectid != x.ino,
        forall|y: Key| #[trigger] keys_of(items).contains(y) ==> y.objectid == x.ino,
        all_allowed(m, replacement_ops(x, to, new_name, items)),
        readable(under(m, entry_key(to, utf8(new_name)))),
    ensures
        ({
            let n = map_after_all(m, replacement_ops(x, to, new_name, items));
            let kt = entry_key(to, utf8(new_name));
            &&& readable(under(n, kt))
            &&& listed(under(n, kt)) == listed(under(m, kt)).filter(
                not_for(utf8(new_name), x.ino),
            )
            &&& k != kt ==> under(n, k) == under(m, k)
        }),
{
    let ops = replacement_ops(x, to, new_name, items);
    let keys = keys_of(items);
    let last = ops.len() - 1;
    let kt = entry_key(to, utf8(new_name));
    let head = ops.take(last);
    assert forall|i: int| 0 <= i < head.len() implies op_key(#[trigger] head[i]) != kt && op_key(
        head[i],
    ) != k by {
        if i < keys.len() {
            assert(head[i] == deletions(keys)[i]);
            assert(keys.contains(keys[i]));
        } else {
            assert(head[i] == drop_index(to, x.index));
        }
    }
    assert(ops[last] == drop_name(to, new_name, x.ino, "dest dir item not found"@));
    split_at(m, ops, last);
    ops_elsewhere(m, head, kt);
    ops_elsewhere(m, head, k);
    let a = map_after_all(m, head);
    assert(under(a, kt) == under(m, kt));
    drop_on_entries(a, to, new_name, x.ino, "dest dir item not found"@);
    let rest = ops.skip(last + 1);
    assert(rest =~= Seq::<OpV>::empty());
}

/// The changes after the overwritten file is gone, on the directory items.
proof fn move_on_entries(
    m: Map<Key, Seq<u8>>,
    p: PlanV,
    generation: u64,
    old_name: Seq<char>,
    new_name: Seq<char>,
    sec: u64,
    nsec: u32,
)
    requires
        utf8(new_name).len() <= u16::MAX,
        readable(under(m, entry_key(p.from, utf8(old_name)))),
        readable(under(m, entry_key(p.to, utf8(new_name)))),
        all_allowed(
            m,
            entry_move_ops(p, generation, old_name, new_name) + inode_ops(
                p,
                generation,
                old_name,
                new_name,
                sec,
                nsec,
            ),
        ),
    ensures
        ({
            let n = map_after_all(
                m,
                entry_move_ops(p, generation, old_name, new_name) + inode_ops(
                    p,
                    generation,
                    old_name,
                    new_name,
                    sec,
                    nsec,
                ),
            );
            let kf = entry_key(p.from, utf8(old_name));
            let kt = entry_key(p.to, utf8(new_name));
            let left = listed(under(m, kf)).filter(not_for(utf8(old_name), p.child));
            let new = new_dir_item(p.child, p.kind, utf8(new_name));
            &&& readable(under(n, kf))
            &&& n.contains_key(kt)
            &&& readable(under(n, kt))
            &&& kf != kt ==> listed(under(n, kf)) == left && listed(under(n, kt)) == listed(
                under(m, kt),
            ) + seq![new]
            &&& kf == kt ==> listed(under(n, kt)) == left + seq![new]
        }),
{
    let ops = entry_move_ops(p, generation, old_name, new_name) + inode_ops(
        p,
        generation,
        old_name,
        new_name,
        sec,
        nsec,
    );
    let kf = entry_key(p.from, utf8(old_name));
    let kt = entry_key(p.to, utf8(new_name));
    let item = dir_item_bytes(p.child, generation, p.kind, utf8(new_name));
    assert(ops[0] == drop_name(p.from, old_name, p.child, "old dir item not found"@));
    assert(ops[1] == drop_index(p.from, p.old_index));
    assert(ops[2] == OpV::Append { key: kt, data: item });
    split_at(m, ops, 0);
    assert(ops.take(0) =~= Seq::<OpV>::empty());
    assert(map_after_all(m, ops.take(0)) == m);
    let a = map_after(m, ops[0]);
    drop_on_entries(m, p.from, old_name, p.child, "old dir item not found"@);
    let r1 = ops.skip(1);
    split_at(a, r1, 1);
    let mid = r1.take(1);
    assert(mid =~= seq![ops[1]]);
    ops_elsewhere(a, mid, kf);
    ops_elsewhere(a, mid, kt);
    let b = map_after_all(a, mid);
    assert(under(b, kf) == under(a, kf));
    assert(under(b, kt) == under(a, kt));
    assert(kf != kt ==> under(a, kt) == under(m, kt));
    append_on_entries(b, kt, p.child, generation, p.kind, utf8(new_name));
    let c = map_after(b, ops[2]);
    let rest = r1.skip(2);
    assert forall|i: int| 0 <= i < rest.len() implies op_key(#[trigger] rest[i]).item_type
        != DIR_ITEM_KEY by {
        assert(rest[i] == ops[i + 3]);
    }
    ops_elsewhere(c, rest, kf);
    ops_elsewhere(c, rest, kt);
    let n = map_after_all(m, ops);
    assert(n == map_after_all(c, rest));
    assert(under(n, kf) == under(c, kf));
    assert(under(n, kt) == under(c, kt));
    assert(kf != kt ==> under(c, kf) == under(b, kf));
}

/// The plan of a rename that moves something.
pub open spec fn plan_of(
    fs: FsV,
    old_dir: Seq<char>,
    old_name: Seq<char>,
    new_dir: Seq<char>,
    new_name: Seq<char>,
) -> PlanV {
    rename_plan(fs, old_dir, old_name, new_dir, new_name)->Ok_0->Go_0
}

/// The data that a rename drops.
pub open spec fn lost_spans(p: PlanV) -> Seq<Span> {
    match p.replaced {
        Some(x) => x.spans,
        None => Seq::empty(),
    }
}

/// A volume that a rename can be done on: its trees are in order and stay within
/// reach, no file is its own directory, and in the two directories a name stands
/// for one file.
pub open spec fn fit_to_move(
    fs: FsV,
    p: PlanV,
    old_name: Seq<char>,
    new_name: Seq<char>,
    sec: u64,
    nsec: u32,
    seen: Lookups,
) -> bool {
    let space = space_on(fs)->Ok_0;
    let g = next_generation(fs);
    let ops = rename_ops(p, g, replaced_items(fs, p)->Ok_0, old_name, new_name, sec, nsec);
    &&& fit_for_data(fs, space, seen.csum)
    &&& files_root(fs).1 < MAX_DEPTH
    &&& stays_low(fs, g, FS_TREE_OBJECTID, fresh_state(space), files_root(fs), ops)
    &&& drop_low(fs, g, space, ops, lost_spans(p), seen)
    &&& p.replaced matches Some(x) ==> x.ino != p.from && x.ino != p.to
    &&& names_stand(fs, p, old_name, new_name)
}

/// In the two directories of a rename the names stand for one file.
pub open spec fn names_stand(fs: FsV, p: PlanV, old_name: Seq<char>, new_name: Seq<char>) -> bool {
    &&& disk_item(fs, fs.fs_tree.bytenr, entry_key(p.from, utf8(old_name))) matches Ok(d)
        && stands_for(listed(d), utf8(old_name), p.child)
    &&& p.replaced matches Some(x) ==> (disk_item(
        fs,
        fs.fs_tree.bytenr,
        entry_key(p.to, utf8(new_name)),
    ) matches Ok(d) && stands_for(listed(d), utf8(new_name), x.ino))
}

/// Fewer entries still stand for the inode.
proof fn still_stands(items: Seq<DirItemV>, keep: spec_fn(DirItemV) -> bool, name: Seq<u8>, ino: u64)
    requires
        stands_for(items, name, ino),
    ensures
        stands_for(items.filter(keep), name, ino),
{
    let left = items.filter(keep);
    assert forall|i: int| 0 <= i < left.len() && (#[trigger] left[i]).name
        == name implies left[i].location.objectid == ino by {
        items.lemma_filter_contains_rev(keep, left[i]);
        let j = choose|j: int| 0 <= j < items.len() && items[j] == left[i];
        assert(items[j].name == name);
    }
}

/// What a rename does to the two directory items.
proof fn rename_on_entries(
    m: Map<Key, Seq<u8>>,
    p: PlanV,
    generation: u64,
    items: Seq<Item>,
    old_name: Seq<char>,
    new_name: Seq<char>,
    sec: u64,
    nsec: u32,
)
    requires
        utf8(new_name).len() <= u16::MAX,
        p.from != p.to || utf8(old_name) != utf8(new_name),
        readable(under(m, entry_key(p.from, utf8(old_name)))),
        readable(under(m, entry_key(p.to, utf8(new_name)))),
        all_allowed(m, rename_ops(p, generation, items, old_name, new_name, sec, nsec)),
        stands_for(listed(under(m, entry_key(p.from, utf8(old_name)))), utf8(old_name), p.child),
        match p.replaced {
            Some(x) => {
                &&& x.ino != p.from && x.ino != p.to
                &&& forall|y: Key| #[trigger] keys_of(items).contains(y) ==> y.objectid == x.ino
                &&& stands_for(
                    listed(under(m, entry_key(p.to, utf8(new_name)))),
                    utf8(new_name),
                    x.ino,
                )
            },
            None => entry_named(
                listed(under(m, entry_key(p.to, utf8(new_name)))),
                utf8(new_name),
            ) is None,
        },
    ensures
        ({
            let n = map_after_all(
                m,
                rename_ops(p, generation, items, old_name, new_name, sec, nsec),
            );
            let kf = entry_key(p.from, utf8(old_name));
            let kt = entry_key(p.to, utf8(new_name));
            &&& readable(under(n, kf))
            &&& readable(under(n, kt))
            &&& entry_named(listed(under(n, kf)), utf8(old_name)) is None
            &&& entry_named(listed(under(n, kt)), utf8(new_name)) == Some(
                new_dir_item(p.child, p.kind, utf8(new_name)),
            )
            &&& named_once(listed(under(n, kt)), utf8(new_name))
        }),
{
    let kf = entry_key(p.from, utf8(old_name));
    let kt = entry_key(p.to, utf8(new_name));
    let first = match p.replaced {
        Some(x) => replacement_ops(x, p.to, new_name, items),
        None => Seq::empty(),
    };
    let second = entry_move_ops(p, generation, old_name, new_name) + inode_ops(
        p,
        generation,
        old_name,
        new_name,
        sec,
        nsec,
    );
    let ops = rename_ops(p, generation, items, old_name, new_name, sec, nsec);
    assert(ops =~= first + second);
    allowed_parts(m, first, second);
    map_after_parts(m, first, second);
    let a = map_after_all(m, first);
    let old = utf8(old_name);
    let new = utf8(new_name);
    let before = listed(under(m, kt));
    match p.replaced {
        Some(x) => {
            replacement_on_entries(m, x, p.to, new_name, items, kf);
            dropped_is_not_named(before, new, x.ino);
            if kf == kt {
                still_stands(before, not_for(new, x.ino), old, p.child);
            }
        },
        None => {
            assert(a == m);
        },
    }
    assert(entry_named(listed(under(a, kt)), new) is None);
    assert(stands_for(listed(under(a, kf)), old, p.child));
    move_on_entries(a, p, generation, old_name, new_name, sec, nsec);
    let held = listed(under(a, kf));
    let left = held.filter(not_for(old, p.child));
    dropped_is_not_named(held, old, p.child);
    assert(entry_named(left, old) is None);
    let e = new_dir_item(p.child, p.kind, new);
    if kf == kt {
        still_not_named(held, not_for(old, p.child), new);
        appended_is_named(left, e);
        appended_is_named_once(left, e);
        other_name_appended(left, e, old);
    } else {
        appended_is_named(listed(under(a, kt)), e);
        appended_is_named_once(listed(under(a, kt)), e);
    }
}

/// No two entries have this name.
pub open spec fn named_once(items: Seq<DirItemV>, name: Seq<u8>) -> bool {
    forall|i: int, j: int|
        0 <= i < items.len() && 0 <= j < items.len() && (#[trigger] items[i]).name == name && (
        #[trigger] items[j]).name == name ==> i == j
}

proof fn appended_is_named_once(items: Seq<DirItemV>, e: DirItemV)
    requires
        entry_named(items, e.name) is None,
    ensures
        named_once(items + seq![e], e.name),
{
    let f = has_name(e.name);
    first_idx_props(items, f);
    let all = items + seq![e];
    assert forall|i: int|
        0 <= i < all.len() && (#[trigger] all[i]).name == e.name implies i == items.len() by {
        if i < items.len() {
            assert(all[i] == items[i]);
            assert(!f(items[i]));
        }
    }
}

/// Appending an entry of another name does not make a name found.
proof fn other_name_appended(items: Seq<DirItemV>, e: DirItemV, name: Seq<u8>)
    requires
        entry_named(items, name) is None,
        e.name != name,
    ensures
        entry_named(items + seq![e], name) is None,
{
    let f = has_name(name);
    let all = items + seq![e];
    first_idx_props(items, f);
    first_idx_props(all, f);
    let i = first_idx(all, f);
    if i < all.len() {
        assert(f(all[i]));
        if i < items.len() {
            assert(f(items[i]));
        }
    }
}

/// The entries of directory `dir` that are kept with `name`.
pub open spec fn kept_with(gs: FsV, root: u64, dir: u64, name: Seq<u8>) -> Seq<DirItemV> {
    listed(disk_item(gs, root, entry_key(dir, name))->Ok_0)
}

/// Once a rename is committed, the new name is found in its directory on the
/// device, once, and stands for the file, and the old name is not found in its
/// own.
///
/// The rename moves something, and no device write of the commit damages
/// another.
pub proof fn renamed_is_found_on_device(
    fs: FsV,
    len: Option<u64>,
    old_dir: Seq<char>,
    old_name: Seq<char>,
    new_dir: Seq<char>,
    new_name: Seq<char>,
    sec: u64,
    nsec: u32,
    seen: Lookups,
)
    requires
        renamed(fs, old_dir, old_name, new_dir, new_name, sec, nsec, seen) is Ok,
        rename_plan(fs, old_dir, old_name, new_dir, new_name) matches Ok(MoveV::Go(_)),
        fit_to_move(
            fs,
            plan_of(fs, old_dir, old_name, new_dir, new_name),
            old_name,
            new_name,
            sec,
            nsec,
            seen,
        ),
        utf8(new_name).len() <= u16::MAX,
        ({
            let t = renamed(fs, old_dir, old_name, new_dir, new_name, sec, nsec, seen)->Ok_0;
            commits_clear(fs, len, t)
        }),
    ensures
        ({
            let t = renamed(fs, old_dir, old_name, new_dir, new_name, sec, nsec, seen)->Ok_0;
            let gs = committed(fs, len, t)->Ok_0.0;
            let p = plan_of(fs, old_dir, old_name, new_dir, new_name);
            &&& entry_in(gs, gs.fs_tree.bytenr, p.to, utf8(new_name)) == Ok::<
                Option<DirItemV>,
                Fault,
            >(Some(new_dir_item(p.child, p.kind, utf8(new_name))))
            &&& named_once(
                kept_with(gs, gs.fs_tree.bytenr, p.to, utf8(new_name)),
                utf8(new_name),
            )
            &&& entry_in(gs, gs.fs_tree.bytenr, p.from, utf8(old_name)) == Ok::<
                Option<DirItemV>,
                Fault,
            >(None)
        }),
{
    let t = renamed(fs, old_dir, old_name, new_dir, new_name, sec, nsec, seen)->Ok_0;
    let p = plan_of(fs, old_dir, old_name, new_dir, new_name);
    let space = space_on(fs)->Ok_0;
    let g = next_generation(fs);
    let items = replaced_items(fs, p)->Ok_0;
    let ops = rename_ops(p, g, items, old_name, new_name, sec, nsec);
    let s0 = fresh_state(space);
    let files = files_root(fs);
    let m = contents(fs, s0, files);
    let kf = entry_key(p.from, utf8(old_name));
    let kt = entry_key(p.to, utf8(new_name));
    files_lose_as_told(fs, g, space, ops, lost_spans(p), seen);
    search_reads_contents(fs, s0, files, kf);
    search_reads_contents(fs, s0, files, kt);
    if old_name != new_name {
        vstd::utf8::encode_utf8_decode_utf8(old_name);
        vstd::utf8::encode_utf8_decode_utf8(new_name);
    }
    match p.replaced {
        Some(x) => {
            objects_collected(fs, space, x.ino);
        },
        None => {},
    }
    rename_on_entries(m, p, g, items, old_name, new_name, sec, nsec);
    search_reads_contents(fs, state_of(t), files_of(t), kf);
    search_reads_contents(fs, state_of(t), files_of(t), kt);
    committed_is_found(fs, len, t, files_of(t), kf);
    committed_is_found(fs, len, t, files_of(t), kt);
}

/// Dropping entries of one name leaves every other name to what it stood for.
pub proof fn other_name_kept(items: Seq<DirItemV>, name: Seq<u8>, ino: u64, q: Seq<u8>)
    requires
        q != name,
    ensures
        entry_named(items.filter(not_for(name, ino)), q) == entry_named(items, q),
    decreases items.len(),
{
    reveal(Seq::filter);
    let keep = not_for(name, ino);
    if items.len() > 0 {
        let front = items.drop_last();
        let e = items.last();
        other_name_kept(front, name, ino, q);
        let left = front.filter(keep);
        assert(items =~= front + seq![e]);
        found_behind(front, e, q);
        if keep(e) {
            assert(items.filter(keep) =~= left + seq![e]);
            found_behind(left, e, q);
        }
    }
}

/// What a name stands for once an entry is appended.
proof fn found_behind(items: Seq<DirItemV>, e: DirItemV, q: Seq<u8>)
    ensures
        entry_named(items + seq![e], q) == match entry_named(items, q) {
            Some(x) => Some(x),
            None => if e.name == q {
                Some(e)
            } else {
                None
            },
        },
{
    let f = has_name(q);
    let all = items + seq![e];
    let i = first_idx(items, f);
    first_idx_props(items, f);
    assert forall|j: int| 0 <= j < i implies !f(#[trigger] all[j]) by {
        assert(all[j] == items[j]);
    }
    if i < items.len() {
        assert(all[i] == items[i]);
        first_idx_is(all, f, i);
    } else if e.name == q {
        assert(f(all[i]));
        first_idx_is(all, f, i);
    } else {
        assert(!f(all[i]));
        assert forall|j: int| 0 <= j < all.len() implies !f(#[trigger] all[j]) by {
            if j < items.len() {
                assert(all[j] == items[j]);
            }
        }
        first_idx_is(all, f, all.len() as int);
    }
}

/// A rename leaves every other name to what it stood for.
proof fn rename_keeps_names(
    m: Map<Key, Seq<u8>>,
    p: PlanV,
    generation: u64,
    items: Seq<Item>,
    old_name: Seq<char>,
    new_name: Seq<char>,
    sec: u64,
    nsec: u32,
    dir: u64,
    q: Seq<u8>,
)
    requires
        utf8(new_name).len() <= u16::MAX,
        readable(under(m, entry_key(p.from, utf8(old_name)))),
        readable(under(m, entry_key(p.to, utf8(new_name)))),
        readable(under(m, entry_key(dir, q))),
        all_allowed(m, rename_ops(p, generation, items, old_name, new_name, sec, nsec)),
        p.replaced matches Some(x) ==> x.ino != p.from && x.ino != p.to && x.ino != dir && forall|
            y: Key,
        | #[trigger] keys_of(items).contains(y) ==> y.objectid == x.ino,
        !(dir == p.from && q == utf8(old_name)),
        !(dir == p.to && q == utf8(new_name)),
    ensures
        ({
            let n = map_after_all(
                m,
                rename_ops(p, generation, items, old_name, new_name, sec, nsec),
            );
            let k = entry_key(dir, q);
            &&& readable(under(n, k))
            &&& entry_named(listed(under(n, k)), q) == entry_named(listed(under(m, k)), q)
        }),
{
    let k = entry_key(dir, q);
    let kf = entry_key(p.from, utf8(old_name));
    let kt = entry_key(p.to, utf8(new_name));
    let old = utf8(old_name);
    let new = utf8(new_name);
    let first = match p.replaced {
        Some(x) => replacement_ops(x, p.to, new_name, items),
        None => Seq::empty(),
    };
    let second = entry_move_ops(p, generation, old_name, new_name) + inode_ops(
        p,
        generation,
        old_name,
        new_name,
        sec,
        nsec,
    );
    let ops = rename_ops(p, generation, items, old_name, new_name, sec, nsec);
    assert(ops =~= first + second);
    allowed_parts(m, first, second);
    map_after_parts(m, first, second);
    let a = map_after_all(m, first);
    let n = map_after_all(m, ops);
    match p.replaced {
        Some(x) => {
            replacement_on_entries(m, x, p.to, new_name, items, k);
            replacement_on_entries(m, x, p.to, new_name, items, kf);
            if k == kt {
                other_name_kept(listed(under(m, kt)), new, x.ino, q);
            }
        },
        None => {
            assert(a == m);
        },
    }
    assert(readable(under(a, k)));
    assert(entry_named(listed(under(a, k)), q) == entry_named(listed(under(m, k)), q));
    move_on_entries(a, p, generation, old_name, new_name, sec, nsec);
    let e = new_dir_item(p.child, p.kind, new);
    if k == kf {
        other_name_kept(listed(under(a, kf)), old, p.child, q);
        if k == kt {
            found_behind(listed(under(a, kf)).filter(not_for(old, p.child)), e, q);
        }
    } else if k == kt {
        found_behind(listed(under(a, kt)), e, q);
    } else {
        assert forall|i: int| 0 <= i < second.len() implies op_key(#[trigger] second[i]) != k by {}
        ops_elsewhere(a, second, k);
    }
}

/// The keys under which a rename changes something.
pub open spec fn moves_key(p: PlanV, old_name: Seq<char>, new_name: Seq<char>, k: Key) -> bool {
    ||| p.replaced matches Some(x) && k.objectid == x.ino
    ||| k == entry_key(p.from, utf8(old_name))
    ||| k == entry_key(p.to, utf8(new_name))
    ||| k.item_type == DIR_INDEX_KEY && (k.objectid == p.from || k.objectid == p.to)
    ||| k.item_type == INODE_REF_KEY && k.objectid == p.child
    ||| k == inode_key(p.child)
    ||| k == inode_key(p.from)
    ||| k == inode_key(p.to)
}

/// A rename leaves alone what is under other keys, and of a file that it
/// replaces nothing.
proof fn rename_on_keys(
    m: Map<Key, Seq<u8>>,
    p: PlanV,
    generation: u64,
    items: Seq<Item>,
    old_name: Seq<char>,
    new_name: Seq<char>,
    sec: u64,
    nsec: u32,
    k: Key,
)
    requires
        match p.replaced {
            Some(x) => {
                &&& x.ino != p.from && x.ino != p.to && x.ino != p.child
                &&& forall|y: Key| #[trigger]
                    keys_of(items).contains(y) == (y.objectid == x.ino && m.contains_key(y))
            },
            None => true,
        },
    ensures
        ({
            let n = map_after_all(
                m,
                rename_ops(p, generation, items, old_name, new_name, sec, nsec),
            );
            &&& !moves_key(p, old_name, new_name, k) ==> under(n, k) == under(m, k)
            &&& p.replaced matches Some(x) ==> (k.objectid == x.ino ==> under(n, k) is None)
        }),
{
    let ops = rename_ops(p, generation, items, old_name, new_name, sec, nsec);
    let n = map_after_all(m, ops);
    match p.replaced {
        Some(x) => {
            let keys = keys_of(items);
            let gone = deletions(keys);
            let rest = ops.skip(keys.len() as int);
            assert(ops =~= gone + rest);
            map_after_parts(m, gone, rest);
            deletions_on_map(m, keys);
            let a = map_after_all(m, gone);
            assert(a.contains_key(k) == (m.contains_key(k) && !keys.contains(k)));
            if k.objectid == x.ino || !moves_key(p, old_name, new_name, k) {
                assert forall|i: int| 0 <= i < rest.len() implies op_key(#[trigger] rest[i])
                    != k by {
                    assert(rest[i] == ops[keys.len() + i]);
                }
                ops_elsewhere(a, rest, k);
            }
        },
        None => {
            if !moves_key(p, old_name, new_name, k) {
                assert forall|i: int| 0 <= i < ops.len() implies op_key(#[trigger] ops[i]) != k by {}
                ops_elsewhere(m, ops, k);
            }
        },
    }
}

/// A patch that keeps the size leaves an inode as it reads.
pub proof fn kept_inode_reads_back(ino: u64, d: Seq<u8>, p: InodePatch)
    requires
        d.len() >= 160,
        p.size == SizeEdit::Keep,
    ensures
        parse_inode(ino, patched(d, p)) == parse_inode(ino, d),
{
    broadcast use group_enc_len;

    let r = patched(d, p);
    assert(r.len() == d.len());
    assert(forall|i: int| 0 <= i < 8 || 16 <= i < 72 ==> #[trigger] r[i] == d[i]);
    reveal(le64);
    reveal(le32);
    assert(le64(r, 0) == le64(d, 0));
    assert(le64(r, 16) == le64(d, 16));
    assert(le64(r, 24) == le64(d, 24));
    assert(le32(r, 40) == le32(d, 40));
    assert(le32(r, 44) == le32(d, 44));
    assert(le32(r, 48) == le32(d, 48));
    assert(le32(r, 52) == le32(d, 52));
    assert(le64(r, 64) == le64(d, 64));
}

/// A rename changes the inode of what it moves in its change time alone.
proof fn rename_on_child(
    m: Map<Key, Seq<u8>>,
    p: PlanV,
    generation: u64,
    items: Seq<Item>,
    old_name: Seq<char>,
    new_name: Seq<char>,
    sec: u64,
    nsec: u32,
)
    requires
        p.child != p.from,
        p.child != p.to,
        p.replaced matches Some(x) ==> x.ino != p.child && forall|y: Key| #[trigger]
            keys_of(items).contains(y) ==> y.objectid == x.ino,
        all_allowed(m, rename_ops(p, generation, items, old_name, new_name, sec, nsec)),
    ensures
        ({
            let n = map_after_all(
                m,
                rename_ops(p, generation, items, old_name, new_name, sec, nsec),
            );
            let k = inode_key(p.child);
            &&& m.contains_key(k) && n.contains_key(k)
            &&& parse_inode(p.child, n[k]) == parse_inode(p.child, m[k])
        }),
{
    let ops = rename_ops(p, generation, items, old_name, new_name, sec, nsec);
    let first = match p.replaced {
        Some(x) => replacement_ops(x, p.to, new_name, items),
        None => Seq::empty(),
    };
    let mid = entry_move_ops(p, generation, old_name, new_name);
    let i = (first.len() + mid.len()) as int;
    let k = inode_key(p.child);
    let patch = InodePatch { generation, size: SizeEdit::Keep, sec, nsec, modified: false };
    assert(ops[i] == touch(
        p.child,
        patch,
        "child inode not found"@,
        "child inode item truncated"@,
    ));
    split_at(m, ops, i);
    let head = ops.take(i);
    let tail = ops.skip(i + 1);
    assert forall|j: int| 0 <= j < head.len() implies op_key(#[trigger] head[j]) != k by {
        if j < first.len() {
            assert(head[j] == first[j]);
            if let Some(x) = p.replaced {
                let keys = keys_of(items);
                if j < keys.len() {
                    assert(first[j] == deletions(keys)[j]);
                    assert(keys.contains(keys[j]));
                }
            }
        } else {
            assert(head[j] == mid[j - first.len()]);
        }
    }
    assert forall|j: int| 0 <= j < tail.len() implies op_key(#[trigger] tail[j]) != k by {
        assert(tail[j] == ops[i + 1 + j]);
    }
    ops_elsewhere(m, head, k);
    let a = map_after_all(m, head);
    let b = map_after(a, ops[i]);
    ops_elsewhere(b, tail, k);
    kept_inode_reads_back(p.child, m[k], patch);
}

/// Once a rename is committed, every other name still stands for what it stood
/// for; what was moved has the inode it had, but for its change time, and its
/// other items, such as its data extents, are found as before, as is all that
/// has to do with neither the file nor the two directories; and of a file that
/// was replaced no item is found.
///
/// No file is its own directory, and no device write of the commit damages
/// another.
pub proof fn renamed_keeps_the_rest(
    fs: FsV,
    len: Option<u64>,
    old_dir: Seq<char>,
    old_name: Seq<char>,
    new_dir: Seq<char>,
    new_name: Seq<char>,
    sec: u64,
    nsec: u32,
    seen: Lookups,
    dir: u64,
    q: Seq<u8>,
    k: Key,
)
    requires
        renamed(fs, old_dir, old_name, new_dir, new_name, sec, nsec, seen) is Ok,
        rename_plan(fs, old_dir, old_name, new_dir, new_name) matches Ok(MoveV::Go(_)),
        fit_to_move(
            fs,
            plan_of(fs, old_dir, old_name, new_dir, new_name),
            old_name,
            new_name,
            sec,
            nsec,
            seen,
        ),
        utf8(new_name).len() <= u16::MAX,
        ({
            let p = plan_of(fs, old_dir, old_name, new_dir, new_name);
            p.child != p.from && p.child != p.to
        }),
        ({
            let t = renamed(fs, old_dir, old_name, new_dir, new_name, sec, nsec, seen)->Ok_0;
            commits_clear(fs, len, t)
        }),
    ensures
        ({
            let t = renamed(fs, old_dir, old_name, new_dir, new_name, sec, nsec, seen)->Ok_0;
            let gs = committed(fs, len, t)->Ok_0.0;
            let p = plan_of(fs, old_dir, old_name, new_dir, new_name);
            let other = !(dir == p.from && q == utf8(old_name)) && !(dir == p.to && q == utf8(
                new_name,
            )) && !(p.replaced matches Some(x) && x.ino == dir);
            &&& other ==> entry_in(gs, gs.fs_tree.bytenr, dir, q) == entry_in(
                fs,
                fs.fs_tree.bytenr,
                dir,
                q,
            )
            &&& inode_of(gs, gs.fs_tree.bytenr, p.child) == inode_of(
                fs,
                fs.fs_tree.bytenr,
                p.child,
            )
            &&& !moves_key(p, old_name, new_name, k) ==> disk_item(gs, gs.fs_tree.bytenr, k)
                == disk_item(fs, fs.fs_tree.bytenr, k)
            &&& p.replaced matches Some(x) ==> (k.objectid == x.ino ==> disk_item(
                gs,
                gs.fs_tree.bytenr,
                k,
            ) == Ok::<Option<Seq<u8>>, Fault>(None))
        }),
{
    let t = renamed(fs, old_dir, old_name, new_dir, new_name, sec, nsec, seen)->Ok_0;
    let gs = committed(fs, len, t)->Ok_0.0;
    let p = plan_of(fs, old_dir, old_name, new_dir, new_name);
    let space = space_on(fs)->Ok_0;
    let g = next_generation(fs);
    let items = replaced_items(fs, p)->Ok_0;
    let ops = rename_ops(p, g, items, old_name, new_name, sec, nsec);
    let s0 = fresh_state(space);
    let files = files_root(fs);
    let m = contents(fs, s0, files);
    files_lose_as_told(fs, g, space, ops, lost_spans(p), seen);
    if let Some(x) = p.replaced {
        objects_collected(fs, space, x.ino);
    }
    let n = map_after_all(m, ops);
    found_on_device(fs, len, t, space, k);
    found_on_device(fs, len, t, space, inode_key(p.child));
    rename_on_keys(m, p, g, items, old_name, new_name, sec, nsec, k);
    rename_on_child(m, p, g, items, old_name, new_name, sec, nsec);
    let other = !(dir == p.from && q == utf8(old_name)) && !(dir == p.to && q == utf8(new_name))
        && !(p.replaced matches Some(x) && x.ino == dir);
    if other {
        let e = entry_key(dir, q);
        let kf = entry_key(p.from, utf8(old_name));
        let kt = entry_key(p.to, utf8(new_name));
        found_on_device(fs, len, t, space, e);
        found_on_device(fs, len, t, space, kf);
        found_on_device(fs, len, t, space, kt);
        if e == kf || e == kt {
            rename_keeps_names(m, p, g, items, old_name, new_name, sec, nsec, dir, q);
        } else {
            rename_on_keys(m, p, g, items, old_name, new_name, sec, nsec, e);
        }
    }
}

/// What is found on the volume, and on the device once a transaction is
/// committed, is what the trees hold as maps.
pub proof fn found_on_device(fs: FsV, len: Option<u64>, t: TxnV, space: Seq<BgV>, k: Key)
    requires
        orderly(fs, fresh_state(space), files_root(fs)),
        files_root(fs).1 < MAX_DEPTH,
        orderly(fs, state_of(t), files_of(t)),
        commits_clear(fs, len, t),
    ensures
        disk_item(fs, fs.fs_tree.bytenr, k) == Ok::<Option<Seq<u8>>, Fault>(
            under(contents(fs, fresh_state(space), files_root(fs)), k),
        ),
        disk_item(
            committed(fs, len, t)->Ok_0.0,
            committed(fs, len, t)->Ok_0.0.fs_tree.bytenr,
            k,
        ) == Ok::<Option<Seq<u8>>, Fault>(under(contents(fs, state_of(t), files_of(t)), k)),
{
    search_reads_contents(fs, fresh_state(space), files_root(fs), k);
    search_reads_contents(fs, state_of(t), files_of(t), k);
    committed_is_found(fs, len, t, files_of(t), k);
}

/// What a rename puts under the index of the new entry stays there.
proof fn rename_on_index(
    m: Map<Key, Seq<u8>>,
    p: PlanV,
    generation: u64,
    items: Seq<Item>,
    old_name: Seq<char>,
    new_name: Seq<char>,
    sec: u64,
    nsec: u32,
)
    requires
        all_allowed(m, rename_ops(p, generation, items, old_name, new_name, sec, nsec)),
    ensures
        under(
            map_after_all(m, rename_ops(p, generation, items, old_name, new_name, sec, nsec)),
            Key { objectid: p.to, item_type: DIR_INDEX_KEY, offset: p.new_index },
        ) == Some(dir_item_bytes(p.child, generation, p.kind, utf8(new_name))),
{
    let ops = rename_ops(p, generation, items, old_name, new_name, sec, nsec);
    let first = match p.replaced {
        Some(x) => replacement_ops(x, p.to, new_name, items),
        None => Seq::empty(),
    };
    let k = Key { objectid: p.to, item_type: DIR_INDEX_KEY, offset: p.new_index };
    let i = first.len() as int + 3;
    let moved = entry_move_ops(p, generation, old_name, new_name);
    let last = inode_ops(p, generation, old_name, new_name, sec, nsec);
    assert(ops[i] == moved[3]);
    split_at(m, ops, i);
    let rest = ops.skip(i + 1);
    assert forall|j: int| 0 <= j < rest.len() implies op_key(#[trigger] rest[j]) != k by {
        assert(rest[j] == ops[i + 1 + j]);
        if 4 + j < moved.len() {
            assert(rest[j] == moved[4 + j]);
        } else {
            assert(rest[j] == last[4 + j - moved.len()]);
        }
    }
    let b = map_after(map_after_all(m, ops.take(i)), ops[i]);
    ops_elsewhere(b, rest, k);
}

/// The byte that stands for a kind of file in an entry, if there is one.
pub open spec fn kind_in_entry(b: u8, kind: FileType) -> bool {
    &&& kind == FileType::Regular ==> b == 1
    &&& kind == FileType::Directory ==> b == 2
    &&& kind == FileType::CharDevice ==> b == 3
    &&& kind == FileType::BlockDevice ==> b == 4
    &&& kind == FileType::Fifo ==> b == 5
    &&& kind == FileType::Socket ==> b == 6
    &&& kind == FileType::Symlink ==> b == 7
}

/// A rename keeps what an entry says of its file: once it is committed, the entry
/// under the new name leads to the inode that the entry under the old name led
/// to, and calls it the same kind of file: a directory stays a directory, a
/// symbolic link a symbolic link. The directory's index says so too, in an item
/// that holds this one entry, with the kind's number behind its header.
///
/// An entry of no known kind becomes that of a regular file.
pub proof fn renamed_keeps_kind(
    fs: FsV,
    len: Option<u64>,
    old_dir: Seq<char>,
    old_name: Seq<char>,
    new_dir: Seq<char>,
    new_name: Seq<char>,
    sec: u64,
    nsec: u32,
    seen: Lookups,
)
    requires
        renamed(fs, old_dir, old_name, new_dir, new_name, sec, nsec, seen) is Ok,
        rename_plan(fs, old_dir, old_name, new_dir, new_name) matches Ok(MoveV::Go(_)),
        fit_to_move(
            fs,
            plan_of(fs, old_dir, old_name, new_dir, new_name),
            old_name,
            new_name,
            sec,
            nsec,
            seen,
        ),
        utf8(new_name).len() <= u16::MAX,
        ({
            let t = renamed(fs, old_dir, old_name, new_dir, new_name, sec, nsec, seen)->Ok_0;
            commits_clear(fs, len, t)
        }),
    ensures
        ({
            let t = renamed(fs, old_dir, old_name, new_dir, new_name, sec, nsec, seen)->Ok_0;
            let gs = committed(fs, len, t)->Ok_0.0;
            let from = resolved(fs, fs.fs_tree, old_dir)->Ok_0.inode.objectid;
            let to = resolved(fs, fs.fs_tree, new_dir)->Ok_0.inode.objectid;
            &&& entry_in(fs, fs.fs_tree.bytenr, from, utf8(old_name)) matches Ok(Some(was))
                && entry_in(gs, gs.fs_tree.bytenr, to, utf8(new_name)) matches Ok(Some(now)) && {
                &&& now.location.objectid == was.location.objectid
                &&& now.name == utf8(new_name)
                &&& was.file_type != FileType::Unknown ==> now.file_type == was.file_type
                &&& was.file_type == FileType::Unknown ==> now.file_type == FileType::Regular
                &&& exists|i: u64|
                    disk_item(
                        gs,
                        gs.fs_tree.bytenr,
                        #[trigger] index_item(to, i),
                    ) matches Ok(Some(d)) && dir_entries(d) == Ok::<Seq<DirItemV>, Fault>(
                        seq![now],
                    ) && kind_in_entry(d[29], was.file_type)
            }
        }),
{
    let t = renamed(fs, old_dir, old_name, new_dir, new_name, sec, nsec, seen)->Ok_0;
    let gs = committed(fs, len, t)->Ok_0.0;
    let p = plan_of(fs, old_dir, old_name, new_dir, new_name);
    let space = space_on(fs)->Ok_0;
    let g = next_generation(fs);
    let items = replaced_items(fs, p)->Ok_0;
    let ops = rename_ops(p, g, items, old_name, new_name, sec, nsec);
    let m = contents(fs, fresh_state(space), files_root(fs));
    renamed_is_found_on_device(fs, len, old_dir, old_name, new_dir, new_name, sec, nsec, seen);
    files_lose_as_told(fs, g, space, ops, lost_spans(p), seen);
    rename_on_index(m, p, g, items, old_name, new_name, sec, nsec);
    let k = index_item(p.to, p.new_index);
    assert(k == Key { objectid: p.to, item_type: DIR_INDEX_KEY, offset: p.new_index });
    found_on_device(fs, len, t, space, k);
    dir_item_reads_back(p.child, g, p.kind, utf8(new_name));
    let d = dir_item_bytes(p.child, g, p.kind, utf8(new_name));
    assert(d[29] == p.kind) by {
        broadcast use group_enc_len;

    }
    assert(disk_item(gs, gs.fs_tree.bytenr, k) == Ok::<Option<Seq<u8>>, Fault>(Some(d)));
}

/// The key of item `i` of a directory's index.
pub open spec fn index_item(dir: u64, i: u64) -> Key {
    Key { objectid: dir, item_type: 96, offset: i }
}

} // verus!
