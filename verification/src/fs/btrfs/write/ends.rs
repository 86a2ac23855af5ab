//! The first and the last key of a range, and what is told from them: a number
//! that no inode has, an index that no entry has, an empty directory, and a move
//! of a directory below itself.

use vstd::prelude::*;

use crate::error::Fault;
use crate::fs::btrfs::files::{
    disk_item, entry_in, first_typed, inode_of, next_index, resolved, top_index, typed_items,
};
use crate::fs::btrfs::search::{
    child_meets, first_below, first_child, first_key, last_below, last_child, last_key,
    range_below, range_children, range_items, MAX_DEPTH,
};
use crate::fs::btrfs::tree::{Item, Key, KeyPtr};
use crate::fs::btrfs::volume::{node_at, FsV};
use crate::fs::btrfs::write::booking::keys_end;
use crate::fs::btrfs::write::contents::sound;
use crate::fs::btrfs::write::converge::Lookups;
use crate::fs::btrfs::write::sweep::{between, range_reads_contents};
use crate::fs::btrfs::write::tree_map::{contents, search_reads_contents};
use crate::fs::btrfs::write::txn::delete::file_deleted;
use crate::fs::btrfs::write::txn::rename::{lies_below, rename_plan, MoveV};
use crate::fs::btrfs::write::txn::{files_root, next_inode};
use crate::fs::btrfs::write::workspace::{fresh_state, StateV};
use crate::fs::FileType;
use crate::text::utf8;

verus! {

/// The last key of a range is that of the last item that collecting the range
/// lists.
proof fn last_is_listed(fs: FsV, b: u64, lo: Key, hi: Key, depth: u8)
    requires
        range_below(fs, Map::empty(), b, lo, hi, depth) is Ok,
    ensures
        last_below(fs, b, lo, hi, depth) == Ok::<Option<Key>, Fault>(
            last_key(range_below(fs, Map::empty(), b, lo, hi, depth)->Ok_0),
        ),
    decreases depth, 0nat, 0nat,
{
    reveal(range_below);
    reveal(range_children);
    reveal(last_below);
    reveal(last_child);
    let node = node_at(fs, Map::empty(), b)->Ok_0;
    if node.level != 0 {
        last_of_children(fs, node.ptrs, node.ptrs.len(), lo, hi, (depth - 1) as u8);
    }
}

proof fn last_of_children(fs: FsV, ptrs: Seq<KeyPtr>, n: nat, lo: Key, hi: Key, depth: u8)
    requires
        range_children(fs, Map::empty(), ptrs, n, lo, hi, depth) is Ok,
    ensures
        last_child(fs, ptrs, n, lo, hi, depth) == Ok::<Option<Key>, Fault>(
            last_key(range_children(fs, Map::empty(), ptrs, n, lo, hi, depth)->Ok_0),
        ),
    decreases depth, 1nat, n,
{
    reveal(range_below);
    reveal(range_children);
    reveal(last_below);
    reveal(last_child);
    if n > 0 {
        last_of_children(fs, ptrs, (n - 1) as nat, lo, hi, depth);
        if child_meets(ptrs, n - 1, lo, hi) {
            last_is_listed(fs, ptrs[n - 1].blockptr, lo, hi, depth);
            let front = range_children(fs, Map::empty(), ptrs, (n - 1) as nat, lo, hi, depth)->Ok_0;
            let back = range_below(fs, Map::empty(), ptrs[n - 1].blockptr, lo, hi, depth)->Ok_0;
            if back.len() == 0 {
                assert(front + back =~= front);
            } else {
                assert((front + back).last() == back.last());
            }
        }
    }
}

/// The first key of a range is that of the first item that collecting the range
/// lists.
proof fn first_is_listed(fs: FsV, b: u64, lo: Key, hi: Key, depth: u8)
    requires
        range_below(fs, Map::empty(), b, lo, hi, depth) is Ok,
    ensures
        first_below(fs, b, lo, hi, depth) == Ok::<Option<Key>, Fault>(
            first_key(range_below(fs, Map::empty(), b, lo, hi, depth)->Ok_0),
        ),
    decreases depth, 0nat, 0nat,
{
    reveal(range_below);
    reveal(range_children);
    reveal(first_below);
    reveal(first_child);
    let node = node_at(fs, Map::empty(), b)->Ok_0;
    if node.level != 0 {
        let all = node.ptrs.len();
        first_of_children(fs, node.ptrs, all, lo, hi, (depth - 1) as u8);
        let items = range_children(fs, Map::empty(), node.ptrs, all, lo, hi, (depth - 1) as u8)->Ok_0;
        assert(range_children(fs, Map::empty(), node.ptrs, 0, lo, hi, (depth - 1) as u8)->Ok_0
            =~= Seq::<Item>::empty());
    }
}

/// Where the children in front of the last `n` list nothing, the first key of the
/// last `n` is the first of all.
proof fn first_of_children(fs: FsV, ptrs: Seq<KeyPtr>, n: nat, lo: Key, hi: Key, depth: u8)
    requires
        range_children(fs, Map::empty(), ptrs, ptrs.len(), lo, hi, depth) is Ok,
        n <= ptrs.len(),
        range_children(fs, Map::empty(), ptrs, (ptrs.len() - n) as nat, lo, hi, depth) == Ok::<
            Seq<Item>,
            Fault,
        >(Seq::empty()),
    ensures
        first_child(fs, ptrs, n, lo, hi, depth) == Ok::<Option<Key>, Fault>(
            first_key(range_children(fs, Map::empty(), ptrs, ptrs.len(), lo, hi, depth)->Ok_0),
        ),
    decreases depth, 1nat, n,
{
    reveal(range_below);
    reveal(range_children);
    reveal(first_below);
    reveal(first_child);
    if n > 0 {
        let i = ptrs.len() - n;
        front_is_listed(fs, ptrs, (i + 1) as nat, lo, hi, depth);
        let next = range_children(fs, Map::empty(), ptrs, (i + 1) as nat, lo, hi, depth)->Ok_0;
        let all = range_children(fs, Map::empty(), ptrs, ptrs.len(), lo, hi, depth)->Ok_0;
        if child_meets(ptrs, i, lo, hi) {
            first_is_listed(fs, ptrs[i].blockptr, lo, hi, depth);
            let back = range_below(fs, Map::empty(), ptrs[i].blockptr, lo, hi, depth)->Ok_0;
            assert(Seq::<Item>::empty() + back =~= back);
            assert(next == back);
            if back.len() > 0 {
                assert(all[0] == next[0]);
            } else {
                assert(next =~= Seq::<Item>::empty());
                first_of_children(fs, ptrs, (n - 1) as nat, lo, hi, depth);
            }
        } else {
            first_of_children(fs, ptrs, (n - 1) as nat, lo, hi, depth);
        }
    }
}

/// What the first children list comes first in what all list.
proof fn front_is_listed(fs: FsV, ptrs: Seq<KeyPtr>, n: nat, lo: Key, hi: Key, depth: u8)
    requires
        range_children(fs, Map::empty(), ptrs, ptrs.len(), lo, hi, depth) is Ok,
        n <= ptrs.len(),
    ensures
        range_children(fs, Map::empty(), ptrs, n, lo, hi, depth) matches Ok(front) && {
            let all = range_children(fs, Map::empty(), ptrs, ptrs.len(), lo, hi, depth)->Ok_0;
            &&& front.len() <= all.len()
            &&& all.take(front.len() as int) == front
        },
    decreases ptrs.len() - n,
{
    let all = range_children(fs, Map::empty(), ptrs, ptrs.len(), lo, hi, depth)->Ok_0;
    if n < ptrs.len() {
        front_is_listed(fs, ptrs, n + 1, lo, hi, depth);
        reveal(range_children);
        reveal(range_below);
        let more = range_children(fs, Map::empty(), ptrs, n + 1, lo, hi, depth)->Ok_0;
        let front = range_children(fs, Map::empty(), ptrs, n, lo, hi, depth)->Ok_0;
        assert(more.take(front.len() as int) =~= front);
        assert(all.take(front.len() as int) =~= all.take(more.len() as int).take(
            front.len() as int,
        ));
    } else {
        assert(all.take(all.len() as int) =~= all);
    }
}

/// The last key from `lo` to `hi` in a sound tree on the device is the greatest
/// such key of the tree's map; it is found unless there is none.
pub proof fn last_is_greatest(fs: FsV, s: StateV, root: (u64, u8), lo: Key, hi: Key)
    requires
        sound(fs, Map::empty(), root.0, root.1, 0, keys_end()),
        s.pending == Map::<u64, Seq<u8>>::empty(),
        root.1 < MAX_DEPTH,
    ensures
        last_below(fs, root.0, lo, hi, MAX_DEPTH) matches Ok(r) && match r {
            None => forall|k: Key| #[trigger]
                contents(fs, s, root).contains_key(k) ==> !between(k, lo, hi),
            Some(last) => {
                &&& contents(fs, s, root).contains_key(last)
                &&& between(last, lo, hi)
                &&& forall|k: Key| #[trigger]
                    contents(fs, s, root).contains_key(k) && between(k, lo, hi) ==> k.ord()
                        <= last.ord()
            },
        },
{
    range_reads_contents(fs, s, root, lo, hi);
    last_is_listed(fs, root.0, lo, hi, MAX_DEPTH);
    let items = range_items(fs, Map::empty(), root.0, lo, hi)->Ok_0;
    let m = contents(fs, s, root);
    assert forall|k: Key| #[trigger] m.contains_key(k) && between(k, lo, hi) implies items.len() > 0
        && k.ord() <= items.last().key.ord() by {
        let x = Item { key: k, data: m[k] };
        assert(items.contains(x));
    }
    if items.len() > 0 {
        assert(items.contains(items.last()));
    }
}

/// The first key from `lo` to `hi` in a sound tree on the device is the least such
/// key of the tree's map; it is found unless there is none.
pub proof fn first_is_least(fs: FsV, s: StateV, root: (u64, u8), lo: Key, hi: Key)
    requires
        sound(fs, Map::empty(), root.0, root.1, 0, keys_end()),
        s.pending == Map::<u64, Seq<u8>>::empty(),
        root.1 < MAX_DEPTH,
    ensures
        first_below(fs, root.0, lo, hi, MAX_DEPTH) matches Ok(r) && match r {
            None => forall|k: Key| #[trigger]
                contents(fs, s, root).contains_key(k) ==> !between(k, lo, hi),
            Some(first) => {
                &&& contents(fs, s, root).contains_key(first)
                &&& between(first, lo, hi)
                &&& forall|k: Key| #[trigger]
                    contents(fs, s, root).contains_key(k) && between(k, lo, hi) ==> first.ord()
                        <= k.ord()
            },
        },
{
    range_reads_contents(fs, s, root, lo, hi);
    first_is_listed(fs, root.0, lo, hi, MAX_DEPTH);
    let items = range_items(fs, Map::empty(), root.0, lo, hi)->Ok_0;
    let m = contents(fs, s, root);
    assert forall|k: Key| #[trigger] m.contains_key(k) && between(k, lo, hi) implies items.len() > 0
        && items[0].key.ord() <= k.ord() by {
        let x = Item { key: k, data: m[k] };
        assert(items.contains(x));
    }
    if items.len() > 0 {
        assert(items.contains(items[0]));
    }
}

/// The default subvolume on the device is a sound tree.
pub open spec fn files_sound(fs: FsV) -> bool {
    &&& sound(fs, Map::empty(), fs.fs_tree.bytenr, fs.fs_tree.level, 0, keys_end())
    &&& fs.fs_tree.level < MAX_DEPTH
}

/// What the default subvolume holds under a key, on the device.
pub open spec fn kept(fs: FsV, k: Key) -> bool {
    disk_item(fs, fs.fs_tree.bytenr, k) matches Ok(Some(_))
}

proof fn kept_is_contents(fs: FsV, k: Key)
    requires
        files_sound(fs),
    ensures
        kept(fs, k) == contents(fs, fresh_state(Seq::empty()), files_root(fs)).contains_key(k),
{
    search_reads_contents(fs, fresh_state(Seq::empty()), files_root(fs), k);
}

/// The number for a new inode is above that of every inode the subvolume holds
/// anything of, the reserved numbers at the top of the range aside, and it is the
/// next one: there is something of the inode before it, or it is 257.
pub proof fn new_number_is_unused(fs: FsV, k: Key)
    requires
        files_sound(fs),
    ensures
        next_inode(fs) matches Ok(ino) && {
            &&& ino >= 257
            &&& kept(fs, k) && 256 <= k.objectid < 0xFFFF_FFFF_FFFF_FF00 ==> k.objectid < ino
            &&& ino == 257 || exists|x: Key| #[trigger] kept(fs, x) && x.objectid + 1 == ino
        },
{
    let lo = Key { objectid: 256, item_type: 0, offset: 0 };
    let hi = Key { objectid: 0xFFFF_FFFF_FFFF_FEFF, item_type: 255, offset: u64::MAX };
    last_is_greatest(fs, fresh_state(Seq::empty()), files_root(fs), lo, hi);
    kept_is_contents(fs, k);
    if 256 <= k.objectid < 0xFFFF_FFFF_FFFF_FF00 {
        assert(between(k, lo, hi));
    }
    if let Some(last) = last_below(fs, fs.fs_tree.bytenr, lo, hi, MAX_DEPTH)->Ok_0 {
        kept_is_contents(fs, last);
        assert(kept(fs, last));
    }
}

proof fn top_is_highest(items: Seq<Item>, i: int)
    requires
        0 <= i < items.len(),
    ensures
        items[i].key.offset <= top_index(items),
    decreases items.len(),
{
    if i < items.len() - 1 {
        top_is_highest(items.drop_last(), i);
    }
}

proof fn top_is_there(items: Seq<Item>) -> (i: int)
    requires
        top_index(items) > 1,
    ensures
        0 <= i < items.len(),
        items[i].key.offset == top_index(items),
    decreases items.len(),
{
    let m = top_index(items.drop_last());
    if items.last().key.offset > m {
        items.len() - 1
    } else {
        top_is_there(items.drop_last())
    }
}

proof fn top_is_at_least_one(items: Seq<Item>)
    ensures
        top_index(items) >= 1,
    decreases items.len(),
{
    if items.len() > 0 {
        top_is_at_least_one(items.drop_last());
    }
}

/// The index for a new entry of a directory is above that of every entry the
/// directory has, and it is the next one: there is an entry at the index before it,
/// or it is 2.
pub proof fn new_index_is_unused(fs: FsV, dir: u64, index: u64)
    requires
        files_sound(fs),
    ensures
        next_index(fs, fs.fs_tree.bytenr, dir) matches Ok(n) && {
            &&& n >= 2
            &&& kept(fs, Key { objectid: dir, item_type: 96, offset: index }) && index < u64::MAX
                ==> index < n
            &&& n == 2 || n == u64::MAX || kept(
                fs,
                Key { objectid: dir, item_type: 96, offset: (n - 1) as u64 },
            )
        },
{
    let s = fresh_state(Seq::empty());
    let lo = Key { objectid: dir, item_type: 96, offset: 0 };
    let hi = Key { objectid: dir, item_type: 96, offset: u64::MAX };
    let k = Key { objectid: dir, item_type: 96, offset: index };
    range_reads_contents(fs, s, files_root(fs), lo, hi);
    kept_is_contents(fs, k);
    let items = typed_items(fs, fs.fs_tree.bytenr, dir, 96)->Ok_0;
    top_is_at_least_one(items);
    if top_index(items) > 1 {
        let i = top_is_there(items);
        let x = items[i];
        assert(items.contains(x));
        assert(between(x.key, lo, hi));
        kept_is_contents(fs, x.key);
        assert(x.key == Key { objectid: dir, item_type: 96, offset: top_index(items) });
    }
    if kept(fs, k) {
        let x = Item { key: k, data: contents(fs, s, files_root(fs))[k] };
        assert(between(k, lo, hi));
        assert(items.contains(x));
        let i = choose|i: int| 0 <= i < items.len() && items[i] == x;
        top_is_highest(items, i);
    }
}

/// The first item of a type of an inode is found unless there is none.
pub proof fn first_typed_is_found(fs: FsV, ino: u64, kind: u8, offset: u64)
    requires
        files_sound(fs),
    ensures
        first_typed(fs, fs.fs_tree.bytenr, ino, kind) matches Ok(r) && match r {
            None => !kept(fs, Key { objectid: ino, item_type: kind, offset }),
            Some(k) => {
                &&& k.objectid == ino && k.item_type == kind
                &&& kept(fs, k)
                &&& kept(fs, Key { objectid: ino, item_type: kind, offset }) ==> k.offset <= offset
            },
        },
{
    let lo = Key { objectid: ino, item_type: kind, offset: 0 };
    let hi = Key { objectid: ino, item_type: kind, offset: u64::MAX };
    let at = Key { objectid: ino, item_type: kind, offset };
    first_is_least(fs, fresh_state(Seq::empty()), files_root(fs), lo, hi);
    kept_is_contents(fs, at);
    assert(between(at, lo, hi));
    if let Some(k) = first_typed(fs, fs.fs_tree.bytenr, ino, kind)->Ok_0 {
        kept_is_contents(fs, k);
    }
}

/// What is deleted is a file, or a directory whose index is empty; nothing else
/// goes.
pub proof fn deleted_was_empty(
    fs: FsV,
    path: Seq<char>,
    sec: u64,
    nsec: u32,
    seen: Lookups,
    index: u64,
)
    requires
        files_sound(fs),
        file_deleted(fs, path, sec, nsec, seen) is Ok,
    ensures
        ({
            let x = resolved(fs, fs.fs_tree, path)->Ok_0;
            &&& x.tree.objectid == 5
            &&& x.inode.nlink <= 1
            &&& x.inode.kind() == FileType::Regular || x.inode.kind() == FileType::Directory
            &&& x.inode.kind() == FileType::Directory ==> !kept(
                fs,
                Key { objectid: x.inode.objectid, item_type: 96, offset: index },
            )
        }),
{
    let x = resolved(fs, fs.fs_tree, path)->Ok_0;
    first_typed_is_found(fs, x.inode.objectid, 96, index);
}

/// A directory with an entry is not deleted.
pub proof fn filled_is_refused(
    fs: FsV,
    path: Seq<char>,
    sec: u64,
    nsec: u32,
    seen: Lookups,
    index: u64,
)
    requires
        files_sound(fs),
        resolved(fs, fs.fs_tree, path) is Ok,
        ({
            let x = resolved(fs, fs.fs_tree, path)->Ok_0;
            x.inode.kind() == FileType::Directory && kept(
                fs,
                Key { objectid: x.inode.objectid, item_type: 96, offset: index },
            )
        }),
    ensures
        file_deleted(fs, path, sec, nsec, seen) is Err,
{
    let x = resolved(fs, fs.fs_tree, path)->Ok_0;
    first_typed_is_found(fs, x.inode.objectid, 96, index);
}

/// The way up from a directory: each is listed in the next, which holds its only
/// way back.
pub open spec fn way_up(fs: FsV, ups: Seq<u64>) -> bool {
    &&& ups.len() > 0
    &&& forall|i: int|
        0 <= i < ups.len() - 1 ==> {
            &&& #[trigger] ups[i] != 256
            &&& ups[i] != fs.fs_tree.root_dirid
            &&& only_parent(fs, ups[i], ups[i + 1])
        }
}

/// Inode `ino` records a way back to `dir` and to no other directory.
pub open spec fn only_parent(fs: FsV, ino: u64, dir: u64) -> bool {
    forall|d: u64| kept(fs, #[trigger] back_to(ino, d)) == (d == dir)
}

/// The key under which inode `ino` records a way back to `dir`.
pub open spec fn back_to(ino: u64, dir: u64) -> Key {
    Key { objectid: ino, item_type: 12, offset: dir }
}

proof fn climb_meets(fs: FsV, ups: Seq<u64>, j: int, climb: nat)
    requires
        files_sound(fs),
        way_up(fs, ups),
        0 <= j < ups.len(),
        j <= climb,
    ensures
        lies_below(fs, ups[0], ups[j], climb) == Ok::<bool, Fault>(true),
    decreases ups.len(),
{
    let at = ups[0];
    if at != ups[j] {
        assert(j > 0);
        assert(only_parent(fs, ups[0], ups[1]));
        first_typed_is_found(fs, at, 12, ups[1]);
        assert(kept(fs, back_to(at, ups[1])));
        let k = first_typed(fs, fs.fs_tree.bytenr, at, 12)->Ok_0->Some_0;
        assert(k == back_to(at, k.offset));
        assert(k.offset == ups[1]);
        let rest = ups.skip(1);
        assert forall|i: int| 0 <= i < rest.len() - 1 implies {
            &&& #[trigger] rest[i] != 256
            &&& rest[i] != fs.fs_tree.root_dirid
            &&& only_parent(fs, rest[i], rest[i + 1])
        } by {
            assert(rest[i] == ups[i + 1]);
            assert(rest[i + 1] == ups[i + 2]);
        }
        climb_meets(fs, rest, j - 1, (climb - 1) as nat);
    }
}

/// A directory is not moved below itself: where the way up from the directory that
/// a rename leads to, of 256 steps at most, meets the directory that is to move,
/// the rename is refused.
pub proof fn no_move_below_itself(
    fs: FsV,
    old_dir: Seq<char>,
    old_name: Seq<char>,
    new_dir: Seq<char>,
    new_name: Seq<char>,
    ups: Seq<u64>,
)
    requires
        files_sound(fs),
        way_up(fs, ups),
        ups.len() <= 257,
        resolved(fs, fs.fs_tree, old_dir) is Ok,
        resolved(fs, fs.fs_tree, new_dir) matches Ok(b) && b.inode.objectid == ups[0],
        entry_in(
            fs,
            fs.fs_tree.bytenr,
            resolved(fs, fs.fs_tree, old_dir)->Ok_0.inode.objectid,
            utf8(old_name),
        ) matches Ok(Some(c)) && c.file_type == FileType::Directory && c.location.objectid
            == ups.last(),
        !(resolved(fs, fs.fs_tree, old_dir)->Ok_0.inode.objectid == ups[0] && old_name == new_name),
    ensures
        rename_plan(fs, old_dir, old_name, new_dir, new_name) is Err,
{
    climb_meets(fs, ups, ups.len() - 1, 256);
}

/// What a rename overwrites: a directory gives way to a directory only, and only
/// when its index is empty; anything else to no directory, and only when it has no
/// other link.
pub proof fn overwritten_is_expendable(
    fs: FsV,
    old_dir: Seq<char>,
    old_name: Seq<char>,
    new_dir: Seq<char>,
    new_name: Seq<char>,
    index: u64,
)
    requires
        files_sound(fs),
        rename_plan(fs, old_dir, old_name, new_dir, new_name) matches Ok(MoveV::Go(_)),
    ensures
        ({
            let root = fs.fs_tree.bytenr;
            let from = resolved(fs, fs.fs_tree, old_dir)->Ok_0;
            let to = resolved(fs, fs.fs_tree, new_dir)->Ok_0;
            let child = entry_in(fs, root, from.inode.objectid, utf8(old_name))->Ok_0->Some_0;
            &&& from.inode.kind() == FileType::Directory && from.tree.objectid == 5
            &&& to.inode.kind() == FileType::Directory && to.tree.objectid == 5
            &&& entry_in(fs, root, from.inode.objectid, utf8(old_name)) matches Ok(Some(_))
            &&& entry_in(fs, root, to.inode.objectid, utf8(new_name)) matches Ok(Some(dest)) ==> {
                let ino = dest.location.objectid;
                &&& ino != child.location.objectid
                &&& (dest.file_type == FileType::Directory) == (child.file_type
                    == FileType::Directory)
                &&& dest.file_type == FileType::Directory ==> !kept(
                    fs,
                    Key { objectid: ino, item_type: 96, offset: index },
                )
                &&& dest.file_type != FileType::Directory ==> (inode_of(fs, root, ino) matches Ok(
                    i,
                ) && i.nlink <= 1)
            }
        }),
{
    let to = resolved(fs, fs.fs_tree, new_dir)->Ok_0;
    if let Ok(Some(dest)) = entry_in(
        fs,
        fs.fs_tree.bytenr,
        to.inode.objectid,
        utf8(new_name),
    ) {
        first_typed_is_found(fs, dest.location.objectid, 96, index);
    }
}

} // verus!
