//! Files that are added to a batch are found in it, and once it is committed.

use vstd::prelude::*;

use crate::error::Fault;
use crate::fs::btrfs::files::entry_key;
use crate::fs::btrfs::roots::root_of;
use crate::fs::btrfs::search::{find_item, MAX_DEPTH};
use crate::fs::btrfs::tree::{
    Key, CSUM_TREE_OBJECTID, EXTENT_DATA_KEY, EXTENT_TREE_OBJECTID, FS_TREE_OBJECTID,
};
use crate::fs::btrfs::volume::FsV;
use crate::fs::btrfs::write::batch::{
    batch_changes, batch_committed, file_added, file_ops, fresh_batch, index_taken, parent_found,
    run_ops, runs_len, runs_taken, sums_added, BatchV, WrittenV,
};
use crate::fs::btrfs::write::change::{
    allowed_parts, extent_root, files_change_keeps, files_of, fit_for_data, map_after_parts,
    moves_files, offers_framed, op_key, ops_elsewhere, root_follows, root_ops_follow, sums_aside,
    sums_root, sums_steps_keep, top_root,
};
use crate::fs::btrfs::write::creation::{entry_keys, entry_on_map};
use crate::fs::btrfs::write::grove::{finish_keeps_files, finish_low, grove, state_of};
use crate::fs::btrfs::write::handout::{marked_is_handed_out, offered};
use crate::fs::btrfs::write::payload::{
    dir_item_bytes, file_extent_bytes, inode_item_bytes, packed_items,
};
use crate::fs::btrfs::write::space::{mark, BgV};
use crate::fs::btrfs::write::tree_map::{
    all_allowed, allowed, contents, map_after_all, orderly, search_reads_contents, stays_low,
    steps_on_map,
};
use crate::fs::btrfs::write::txn::create::FILE_MODE;
use crate::fs::btrfs::write::txn::data::csum_ops;
use crate::fs::btrfs::write::txn::{entry_ops, files_root, inode_key, NewEntryV};
use crate::fs::btrfs::write::workspace::{fresh_state, steps, OpV, StateV};
use crate::text::utf8;

verus! {

/// Where the checksum tree of a batch is, if there is one.
pub open spec fn batch_sums(fs: FsV, b: BatchV, seen: bool) -> Option<(u64, u8)> {
    match sums_root(fs, seen) {
        None => None,
        Some(x) => Some(
            match b.csum_root {
                Some(r) => r,
                None => x,
            },
        ),
    }
}

/// A batch that files can be added to: the trees, as the batch has them, are in
/// order, and none has a block of another; the root tree is the volume's.
pub open spec fn batch_fit(fs: FsV, b: BatchV, seen: bool) -> bool {
    &&& fs.sb.node_size > 0
    &&& root_of(fs, EXTENT_TREE_OBJECTID) is Ok
    &&& grove(fs, b.state, top_root(fs), extent_root(fs), b.fs_root)
    &&& batch_sums(fs, b, seen) matches Some(x) ==> sums_aside(fs, b.state, x, b.fs_root)
    &&& contents(fs, b.state, top_root(fs)) == contents(
        fs,
        fresh_state(b.state.space),
        top_root(fs),
    )
}

/// A batch without files can be added to, on a volume whose trees are in order.
pub proof fn fresh_batch_is_fit(fs: FsV, space: Seq<BgV>, next_ino: u64, now: u64, seen: bool)
    requires
        fit_for_data(fs, space, seen),
    ensures
        batch_fit(fs, fresh_batch(fs, space, next_ino, now), seen),
{
    let b = fresh_batch(fs, space, next_ino, now);
    assert forall|a: int| #[trigger] offered(b.state.space, a) <= offered(
        fresh_state(space).space,
        a,
    ) by {}
    offers_framed(fs, fresh_state(space), b.state, files_root(fs), sums_root(fs, seen));
}

/// Taking data runs leaves the blocks alone and offers nothing new.
proof fn runs_take_less(s: StateV, runs: Seq<(u64, u64)>, reserved: bool, a: int)
    requires
        runs_taken(s, runs, reserved) is Ok,
    ensures
        ({
            let t = runs_taken(s, runs, reserved)->Ok_0;
            t.pending == s.pending && offered(t.space, a) <= offered(s.space, a)
        }),
    decreases runs.len(),
{
    if runs.len() > 0 {
        runs_take_less(s, runs.drop_last(), reserved, a);
        let t = runs_taken(s, runs.drop_last(), reserved)->Ok_0;
        let (at, len) = runs.last();
        if len > 0 && !reserved {
            marked_is_handed_out(t.space, at, len);
            let rest = mark(t.space, at, len)->Ok_0;
            assert(offered(rest, a) <= offered(t.space, a));
        }
    }
}

/// The directory that a file is added to: its inode number and its owner.
pub open spec fn added_dir(fs: FsV, b: BatchV, f: WrittenV) -> (u64, u32, u32) {
    parent_found(fs, b.parents, f.parent)->Ok_0.0
}

/// The operations on the files that add a file.
pub open spec fn added_ops(fs: FsV, b: BatchV, f: WrittenV) -> Seq<OpV> {
    let dir = added_dir(fs, b, f);
    file_ops(b, f, dir, index_taken(fs, b.next_index, dir.0)->Ok_0.0)
}

/// The trees stay within reach while a file is added.
pub open spec fn adding_low(fs: FsV, b: BatchV, f: WrittenV, seen: bool) -> bool {
    let s = runs_taken(b.state, f.runs, f.reserved)->Ok_0;
    let ops = added_ops(fs, b, f);
    &&& stays_low(fs, b.generation, FS_TREE_OBJECTID, s, b.fs_root, ops)
    &&& steps(fs, b.generation, FS_TREE_OBJECTID, s, b.fs_root, ops) matches Ok((t, _)) ==> (
    batch_sums(fs, b, seen) matches Some(x) ==> (packed_items(
        fs.sb.node_size,
        f.sums,
    ) matches Ok(items) ==> stays_low(
        fs,
        b.generation,
        CSUM_TREE_OBJECTID,
        t,
        x,
        csum_ops(items),
    )))
}

/// Adding a file to a batch does to the batch's tree of the files, as a map,
/// just what the operations for the file say, and the batch can be added to
/// again.
pub proof fn batch_grows_as_told(fs: FsV, b: BatchV, f: WrittenV, seen: bool)
    requires
        batch_fit(fs, b, seen),
        adding_low(fs, b, f, seen),
        file_added(fs, b, f, seen) is Ok,
    ensures
        ({
            let c = file_added(fs, b, f, seen)->Ok_0.0;
            &&& batch_fit(fs, c, seen)
            &&& all_allowed(contents(fs, b.state, b.fs_root), added_ops(fs, b, f))
            &&& contents(fs, c.state, c.fs_root) == map_after_all(
                contents(fs, b.state, b.fs_root),
                added_ops(fs, b, f),
            )
        }),
{
    let c = file_added(fs, b, f, seen)->Ok_0.0;
    let s = runs_taken(b.state, f.runs, f.reserved)->Ok_0;
    let ops = added_ops(fs, b, f);
    let sums = batch_sums(fs, b, seen);
    let g = b.generation;
    runs_take_less(b.state, f.runs, f.reserved, 0);
    assert forall|a: int| #[trigger] offered(s.space, a) <= offered(b.state.space, a) by {
        runs_take_less(b.state, f.runs, f.reserved, a);
    }
    offers_framed(fs, b.state, s, b.fs_root, sums);
    steps_on_map(fs, g, FS_TREE_OBJECTID, s, b.fs_root, ops);
    let (t, r) = steps(fs, g, FS_TREE_OBJECTID, s, b.fs_root, ops)->Ok_0;
    files_change_keeps(fs, s, t, b.fs_root, r, sums);
    let (u, csum_root) = sums_added(fs, g, t, b.csum_root, f.sums, seen)->Ok_0;
    assert(c.state == u && c.fs_root == r && c.csum_root == csum_root);
    if f.sums.len() > 0 && sums is Some {
        let items = packed_items(fs.sb.node_size, f.sums)->Ok_0;
        sums_steps_keep(fs, g, t, sums->Some_0, r, csum_ops(items));
    } else {
        assert(u == t);
    }
    assert(contents(fs, fresh_state(c.state.space), top_root(fs)) == contents(
        fs,
        fresh_state(b.state.space),
        top_root(fs),
    ));
}

/// The entry of a file that is added.
pub open spec fn added_entry(fs: FsV, b: BatchV, f: WrittenV) -> NewEntryV {
    let dir = added_dir(fs, b, f);
    NewEntryV {
        generation: b.generation,
        parent: dir.0,
        ino: b.next_ino,
        index: index_taken(fs, b.next_index, dir.0)->Ok_0.0,
        name: f.name,
        kind: 1,
        sec: f.sec,
        nsec: f.nsec,
        shares: false,
        missing: "parent inode not found in leaf"@,
    }
}

/// The inode item of a file that is added.
pub open spec fn added_inode(fs: FsV, b: BatchV, f: WrittenV) -> Seq<u8> {
    let dir = added_dir(fs, b, f);
    inode_item_bytes(
        b.generation,
        f.size(),
        runs_len(f.runs),
        FILE_MODE,
        dir.1,
        dir.2,
        1,
        f.sec,
        f.nsec,
    )
}

/// The key of the extent item for run `i` of a file.
pub open spec fn run_key(ino: u64, runs: Seq<(u64, u64)>, i: int) -> Key {
    Key { objectid: ino, item_type: EXTENT_DATA_KEY, offset: runs_len(runs.take(i)) }
}

/// The extent item for run `i` of a file.
pub open spec fn run_item(generation: u64, runs: Seq<(u64, u64)>, i: int) -> Seq<u8> {
    file_extent_bytes(generation, runs[i].1, runs[i].0, runs[i].1, runs[i].1)
}

/// Where the operation for a run stands.
proof fn run_op_at(generation: u64, ino: u64, runs: Seq<(u64, u64)>, i: int) -> (j: int)
    requires
        0 <= i < runs.len(),
        runs[i].1 > 0,
    ensures
        0 <= j < run_ops(generation, ino, runs).len(),
        run_ops(generation, ino, runs)[j] == (OpV::Insert {
            key: run_key(ino, runs, i),
            data: run_item(generation, runs, i),
        }),
    decreases runs.len(),
{
    let front = runs.drop_last();
    let s = run_ops(generation, ino, front);
    if i == runs.len() - 1 {
        assert(runs.take(i) =~= front);
        s.len() as int
    } else {
        let j = run_op_at(generation, ino, front, i);
        assert(front.take(i) =~= runs.take(i));
        j
    }
}

/// The operations for runs insert extent items of the inode.
proof fn run_ops_insert(generation: u64, ino: u64, runs: Seq<(u64, u64)>)
    ensures
        forall|j: int|
            0 <= j < run_ops(generation, ino, runs).len() ==> (#[trigger] run_ops(
                generation,
                ino,
                runs,
            )[j] matches OpV::Insert { key, .. } && key.objectid == ino && key.item_type
                == EXTENT_DATA_KEY),
    decreases runs.len(),
{
    if runs.len() > 0 {
        run_ops_insert(generation, ino, runs.drop_last());
    }
}

/// What is inserted stays, for nothing is inserted twice.
pub proof fn inserted_stays(m: Map<Key, Seq<u8>>, ops: Seq<OpV>, j: int, key: Key, data: Seq<u8>)
    requires
        all_allowed(m, ops),
        forall|i: int| 0 <= i < ops.len() ==> (#[trigger] ops[i]) is Insert,
        0 <= j < ops.len(),
        ops[j] == (OpV::Insert { key, data }),
    ensures
        map_after_all(m, ops).contains_key(key),
        map_after_all(m, ops)[key] == data,
    decreases ops.len(),
{
    let front = ops.drop_last();
    if j < ops.len() - 1 {
        assert(front[j] == ops[j]);
        assert forall|i: int| 0 <= i < front.len() implies (#[trigger] front[i]) is Insert by {
            assert(front[i] == ops[i]);
        }
        inserted_stays(m, front, j, key, data);
        assert(ops[ops.len() - 1] is Insert);
        assert(allowed(map_after_all(m, front), ops.last()));
    }
}

/// A file that was added to a batch is found in it: a search in the batch's tree
/// of the files finds its entry in the directory, its inode, and an extent item
/// for each of its runs; under keys that the file has nothing to do with it
/// gives what it gave before.
pub proof fn added_is_found(fs: FsV, b: BatchV, f: WrittenV, seen: bool, k: Key, i: int)
    requires
        batch_fit(fs, b, seen),
        adding_low(fs, b, f, seen),
        file_added(fs, b, f, seen) is Ok,
        added_dir(fs, b, f).0 != b.next_ino,
        b.fs_root.1 < MAX_DEPTH,
        file_added(fs, b, f, seen)->Ok_0.0.fs_root.1 < MAX_DEPTH,
    ensures
        ({
            let (c, ino) = file_added(fs, b, f, seen)->Ok_0;
            let p = c.state.pending;
            let at = c.fs_root.0;
            let e = added_entry(fs, b, f);
            &&& find_item(fs, p, at, entry_key(e.parent, utf8(f.name))) == Ok::<
                Option<Seq<u8>>,
                Fault,
            >(Some(dir_item_bytes(ino, b.generation, 1, utf8(f.name))))
            &&& find_item(fs, p, at, inode_key(ino)) == Ok::<Option<Seq<u8>>, Fault>(
                Some(added_inode(fs, b, f)),
            )
            &&& 0 <= i < f.runs.len() && f.runs[i].1 > 0 ==> find_item(
                fs,
                p,
                at,
                run_key(ino, f.runs, i),
            ) == Ok::<Option<Seq<u8>>, Fault>(Some(run_item(b.generation, f.runs, i)))
            &&& !entry_keys(e).contains(k) && !(k.objectid == ino && k.item_type
                == EXTENT_DATA_KEY) ==> find_item(fs, p, at, k) == find_item(
                fs,
                b.state.pending,
                b.fs_root.0,
                k,
            )
        }),
{
    let (c, ino) = file_added(fs, b, f, seen)->Ok_0;
    let e = added_entry(fs, b, f);
    let m = contents(fs, b.state, b.fs_root);
    let ops = added_ops(fs, b, f);
    let first = entry_ops(e, added_inode(fs, b, f));
    let runs = run_ops(b.generation, ino, f.runs);
    let key = entry_key(e.parent, utf8(f.name));
    batch_grows_as_told(fs, b, f, seen);
    assert(ops == first + runs);
    allowed_parts(m, first, runs);
    map_after_parts(m, first, runs);
    entry_on_map(m, e, added_inode(fs, b, f));
    let a = map_after_all(m, first);
    let n = map_after_all(a, runs);
    run_ops_insert(b.generation, ino, f.runs);
    assert forall|x: Key|
        !(x.objectid == ino && x.item_type == EXTENT_DATA_KEY) implies #[trigger] n.contains_key(x)
        == a.contains_key(x) && (a.contains_key(x) ==> n[x] == a[x]) by {
        assert forall|j: int| 0 <= j < runs.len() implies op_key(#[trigger] runs[j]) != x by {}
        ops_elsewhere(a, runs, x);
    }
    search_reads_contents(fs, b.state, b.fs_root, k);
    search_reads_contents(fs, c.state, c.fs_root, k);
    search_reads_contents(fs, c.state, c.fs_root, inode_key(ino));
    assert(n.contains_key(inode_key(ino)));
    search_reads_contents(fs, b.state, b.fs_root, key);
    search_reads_contents(fs, c.state, c.fs_root, key);
    assert(n.contains_key(key));
    if 0 <= i < f.runs.len() && f.runs[i].1 > 0 {
        let j = run_op_at(b.generation, ino, f.runs, i);
        inserted_stays(a, runs, j, run_key(ino, f.runs, i), run_item(b.generation, f.runs, i));
        search_reads_contents(fs, c.state, c.fs_root, run_key(ino, f.runs, i));
    }
    assert(n.contains_key(k) == n.contains_key(k));
}

/// The transaction that a batch comes to has the files as the batch has them: a
/// search finds in it what it found in the batch.
pub proof fn batch_commits_as_told(fs: FsV, b: BatchV, seen: bool, fst: bool, k: Key)
    requires
        batch_fit(fs, b, seen),
        finish_low(fs, batch_changes(fs, b), (StateV { ledger: None, ..b.state }), fst),
        batch_committed(fs, b, fst) is Ok,
    ensures
        ({
            let t = batch_committed(fs, b, fst)->Ok_0;
            &&& orderly(fs, state_of(t), files_of(t))
            &&& orderly(fs, state_of(t), t.root)
            &&& files_of(t) == b.fs_root
            &&& moves_files(fs, t)
            &&& root_follows(
                fs,
                contents(fs, fresh_state(b.state.space), top_root(fs)),
                contents(fs, state_of(t), t.root),
                t,
            )
            &&& contents(fs, state_of(t), files_of(t)) == contents(fs, b.state, b.fs_root)
            &&& b.fs_root.1 < MAX_DEPTH ==> find_item(fs, t.blocks, t.fs_tree.bytenr, k)
                == find_item(fs, b.state.pending, b.fs_root.0, k)
        }),
{
    let s = StateV { ledger: None, ..b.state };
    let c = batch_changes(fs, b);
    let t = batch_committed(fs, b, fst)->Ok_0;
    assert forall|a: int| #[trigger] offered(s.space, a) <= offered(b.state.space, a) by {}
    offers_framed(fs, b.state, s, b.fs_root, None);
    finish_keeps_files(fs, c, s, fst, extent_root(fs));
    root_ops_follow(
        fs,
        c,
        contents(fs, s, top_root(fs)),
        contents(fs, state_of(t), t.root),
        t,
    );
    if b.fs_root.1 < MAX_DEPTH {
        search_reads_contents(fs, b.state, b.fs_root, k);
        search_reads_contents(fs, state_of(t), files_of(t), k);
    }
}

} // verus!
