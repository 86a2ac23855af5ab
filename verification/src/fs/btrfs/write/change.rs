//! A transaction does to the tree of the files, as a map, just what its
//! operations on the files say.

use vstd::prelude::*;

use crate::error::Fault;
use crate::fs::btrfs::roots::{optional_root, root_of};
use crate::fs::btrfs::search::MAX_DEPTH;
use crate::fs::btrfs::tree::{
    Key, CSUM_TREE_OBJECTID, EXTENT_TREE_OBJECTID, FS_TREE_OBJECTID, ROOT_ITEM_KEY,
};
use crate::fs::btrfs::volume::{FsV, TreeRoot};
use crate::fs::btrfs::write::booking::unoffered;
use crate::fs::btrfs::write::commit::{commit_script, committed, template_of};
use crate::fs::btrfs::write::contents::in_tree;
use crate::fs::btrfs::write::converge::{
    extent_start, finalized, only_files, root_ops, ChangesV, Lookups,
};
use crate::fs::btrfs::write::csum_delete::trim_plan;
use crate::fs::btrfs::write::edit::repointed;
use crate::fs::btrfs::write::grove::{
    beside, beside_change, finish_keeps_files, finish_low, grove, lists_files_alike, state_of,
};
use crate::fs::btrfs::write::handout::{offered, tidy};
use crate::fs::btrfs::write::payload::csum_tiles;
use crate::fs::btrfs::write::readback::{clear_cut, kept_by};
use crate::fs::btrfs::write::space::{free_extent, BgV};
use crate::fs::btrfs::write::tree_map::{
    all_allowed, allowed, confined, contents, edit_on_map, map_after, map_after_all, orderly, pinning_offers_nothing,
    stays_low, steps_on_map,
};
use crate::fs::btrfs::write::txn::data::{
    csum_ops, csums_added, data_changes, data_written, disk_len, padded, with_extent,
};
use crate::fs::btrfs::write::txn::delete::{drop_changes, spans_lost};
use crate::fs::btrfs::write::txn::{files_changed, files_root, TxnV};
use crate::fs::btrfs::write::unlink::{
    csums_dropped, data_dropped, span_pairs, spans_freed, Span,
};
use crate::fs::btrfs::write::workspace::{fresh_state, steps, OpV, StateV};
use crate::seqs::{first_idx, first_idx_props};

verus! {

/// Where the root tree is.
pub open spec fn top_root(fs: FsV) -> (u64, u8) {
    (fs.sb.root, fs.sb.root_level)
}

/// Where the extent tree is.
pub open spec fn extent_root(fs: FsV) -> (u64, u8) {
    match root_of(fs, EXTENT_TREE_OBJECTID) {
        Ok(x) => (x.bytenr, x.level),
        Err(_) => (0, 0),
    }
}

/// Where the checksum tree is, if there is one; `seen` says whether the lookup
/// went through.
pub open spec fn sums_root(fs: FsV, seen: bool) -> Option<(u64, u8)> {
    match optional_root(fs, CSUM_TREE_OBJECTID, seen) {
        Some(x) => Some((x.bytenr, x.level)),
        None => None,
    }
}

/// Where the tree of the files is once a transaction is done.
pub open spec fn files_of(t: TxnV) -> (u64, u8) {
    (t.fs_tree.bytenr, t.fs_tree.level)
}

/// A commit of `t` goes through and lets the files be read back: a search gets
/// to the bottom of their tree, no two writes of the commit have a byte in
/// common, and every block of the tree is kept.
pub open spec fn commits_clear(fs: FsV, len: Option<u64>, t: TxnV) -> bool {
    &&& files_of(t).1 < MAX_DEPTH
    &&& t.blocks.dom().finite()
    &&& committed(fs, len, t) is Ok
    &&& clear_cut(commit_script(fs, len, t, template_of(fs)->Ok_0))
    &&& forall|a: u64| #[trigger]
        in_tree(fs, t.blocks, files_of(t).0, files_of(t).1, a) ==> kept_by(fs, len, t, a)
}

/// A volume that files can be changed on, allocating from `space`: its root
/// tree, its extent tree and the tree of its files are in order, and none has a
/// block of another.
pub open spec fn fit_to_change(fs: FsV, space: Seq<BgV>) -> bool {
    &&& fs.sb.node_size > 0
    &&& root_of(fs, EXTENT_TREE_OBJECTID) is Ok
    &&& grove(fs, fresh_state(space), top_root(fs), extent_root(fs), files_root(fs))
}

/// The checksum tree is in order and has no block of the other trees.
pub open spec fn sums_aside(fs: FsV, s: StateV, sums: (u64, u8), files: (u64, u8)) -> bool {
    &&& orderly(fs, s, sums)
    &&& beside(fs, s, sums, top_root(fs))
    &&& beside(fs, s, sums, extent_root(fs))
    &&& beside(fs, s, sums, files)
}

/// A volume that the data of files can be changed on: its checksum tree, if it
/// has one, is in order and apart from the other trees as well.
pub open spec fn fit_for_data(fs: FsV, space: Seq<BgV>, seen: bool) -> bool {
    &&& fit_to_change(fs, space)
    &&& sums_root(fs, seen) matches Some(x) ==> sums_aside(
        fs,
        fresh_state(space),
        x,
        files_root(fs),
    )
}

/// A transaction changes where the files are, of what generation, and nothing
/// else of where the trees begin but the root tree.
pub open spec fn moves_files(fs: FsV, t: TxnV) -> bool {
    &&& t.chunk_root is None
    &&& t.fs_tree == (TreeRoot {
        bytenr: t.fs_tree.bytenr,
        level: t.fs_tree.level,
        generation: t.generation,
        ..fs.fs_tree
    })
}

/// The key of the root item of the files.
pub open spec fn files_item() -> Key {
    Key { objectid: FS_TREE_OBJECTID, item_type: ROOT_ITEM_KEY, offset: 0 }
}

/// The root tree, as the map `m` before and `n` after, follows the files: where
/// a transaction moved them, their root item points at the new place, and
/// nothing else of the files is listed otherwise.
pub open spec fn root_follows(fs: FsV, m: Map<Key, Seq<u8>>, n: Map<Key, Seq<u8>>, t: TxnV) -> bool {
    t.fs_tree.bytenr != fs.fs_tree.bytenr ==> {
        &&& m.contains_key(files_item())
        &&& m[files_item()].len() >= 239
        &&& n.contains_key(files_item())
        &&& n[files_item()] == repointed(
            m[files_item()],
            t.generation,
            t.fs_tree.bytenr,
            t.fs_tree.level,
        )
        &&& forall|k: Key|
            k.objectid == FS_TREE_OBJECTID && k != files_item() ==> (#[trigger] n.contains_key(k)
                == m.contains_key(k))
    }
}

/// The changes of the root tree make it follow the files.
pub proof fn root_ops_follow(
    fs: FsV,
    c: ChangesV,
    m: Map<Key, Seq<u8>>,
    n: Map<Key, Seq<u8>>,
    t: TxnV,
)
    requires
        c.dev_root is None,
        t.fs_tree == c.fs_tree,
        t.generation == c.generation,
        all_allowed(m, root_ops(fs, c)),
        lists_files_alike(map_after_all(m, root_ops(fs, c)), n),
    ensures
        root_follows(fs, m, n, t),
{
    if t.fs_tree.bytenr != fs.fs_tree.bytenr {
        let ops = root_ops(fs, c);
        let first = seq![ops[0]];
        let m1 = map_after(m, ops[0]);
        assert(first.drop_last() =~= Seq::<OpV>::empty());
        assert(map_after_all(m, first.drop_last()) == m);
        assert(map_after_all(m, first) == m1);
        if ops.len() == 2 {
            assert(ops.drop_last() =~= first);
            assert(all_allowed(m, first));
        } else {
            assert(ops =~= first);
        }
        assert(allowed(m, ops[0]));
        let last = map_after_all(m, ops);
        assert(last == if ops.len() == 2 {
            map_after(m1, ops[1])
        } else {
            m1
        });
        assert(last.contains_key(files_item()));
        assert(n.contains_key(files_item()));
        assert forall|k: Key| k.objectid == FS_TREE_OBJECTID && k != files_item() implies (
        #[trigger] n.contains_key(k) == m.contains_key(k)) by {
            assert(last.contains_key(k) == m.contains_key(k));
        }
    }
}

/// Two trees are beside each other whichever comes first.
pub proof fn beside_other_way(fs: FsV, s: StateV, x: (u64, u8), y: (u64, u8))
    requires
        beside(fs, s, x, y),
    ensures
        beside(fs, s, y, x),
{
    assert forall|a: u64| !(#[trigger] in_tree(fs, s.pending, y.0, y.1, a) && in_tree(
        fs,
        s.pending,
        x.0,
        x.1,
        a,
    )) by {
        if in_tree(fs, s.pending, x.0, x.1, a) {
            assert(!in_tree(fs, s.pending, y.0, y.1, a));
        }
    }
}

/// A confined change of the files keeps the other trees.
pub proof fn files_change_keeps(
    fs: FsV,
    s: StateV,
    t: StateV,
    files: (u64, u8),
    at: (u64, u8),
    sums: Option<(u64, u8)>,
)
    requires
        grove(fs, s, top_root(fs), extent_root(fs), files),
        sums matches Some(x) ==> sums_aside(fs, s, x, files),
        confined(fs, s, t, files, at),
        orderly(fs, t, at),
    ensures
        grove(fs, t, top_root(fs), extent_root(fs), at),
        sums matches Some(x) ==> sums_aside(fs, t, x, at),
        contents(fs, t, top_root(fs)) == contents(fs, s, top_root(fs)),
        contents(fs, t, extent_root(fs)) == contents(fs, s, extent_root(fs)),
{
    let root = top_root(fs);
    let extent = extent_root(fs);
    beside_other_way(fs, s, root, files);
    beside_other_way(fs, s, extent, files);
    beside_change(fs, s, t, files, at, root, extent);
    beside_other_way(fs, t, at, root);
    beside_other_way(fs, t, at, extent);
    match sums {
        Some(x) => {
            beside_other_way(fs, s, x, files);
            beside_change(fs, s, t, files, at, x, root);
            beside_change(fs, s, t, files, at, x, extent);
            beside_other_way(fs, t, at, x);
        },
        None => {},
    }
}

/// Operations on the checksum tree keep the other trees and the files.
pub proof fn sums_steps_keep(
    fs: FsV,
    generation: u64,
    s: StateV,
    sums: (u64, u8),
    files: (u64, u8),
    ops: Seq<OpV>,
)
    requires
        fs.sb.node_size > 0,
        grove(fs, s, top_root(fs), extent_root(fs), files),
        sums_aside(fs, s, sums, files),
        stays_low(fs, generation, CSUM_TREE_OBJECTID, s, sums, ops),
        steps(fs, generation, CSUM_TREE_OBJECTID, s, sums, ops) is Ok,
    ensures
        ({
            let (t, at) = steps(fs, generation, CSUM_TREE_OBJECTID, s, sums, ops)->Ok_0;
            &&& sums_aside(fs, t, at, files)
            &&& grove(fs, t, top_root(fs), extent_root(fs), files)
            &&& contents(fs, t, files) == contents(fs, s, files)
            &&& contents(fs, t, top_root(fs)) == contents(fs, s, top_root(fs))
            &&& contents(fs, t, extent_root(fs)) == contents(fs, s, extent_root(fs))
        }),
{
    let (t, at) = steps(fs, generation, CSUM_TREE_OBJECTID, s, sums, ops)->Ok_0;
    let root = top_root(fs);
    let extent = extent_root(fs);
    steps_on_map(fs, generation, CSUM_TREE_OBJECTID, s, sums, ops);
    beside_change(fs, s, t, sums, at, root, extent);
    beside_change(fs, s, t, sums, at, root, files);
    beside_change(fs, s, t, sums, at, extent, files);
}

/// Whether an operation edits an item that is there.
pub open spec fn is_edit(op: OpV) -> bool {
    op is Edit
}

/// Edits do not make a tree grow.
pub proof fn edits_stay_low(
    fs: FsV,
    generation: u64,
    owner: u64,
    s: StateV,
    root: (u64, u8),
    ops: Seq<OpV>,
)
    requires
        fs.sb.node_size > 0,
        root.1 < 255,
        orderly(fs, s, root),
        forall|i: int| 0 <= i < ops.len() ==> is_edit(#[trigger] ops[i]),
    ensures
        stays_low(fs, generation, owner, s, root, ops),
        steps(fs, generation, owner, s, root, ops) matches Ok((t, r)) ==> r.1 <= root.1
            && orderly(fs, t, r),
    decreases ops.len(),
{
    if ops.len() > 0 {
        let front = ops.drop_last();
        assert forall|i: int| 0 <= i < front.len() implies is_edit(#[trigger] front[i]) by {
            assert(front[i] == ops[i]);
        }
        edits_stay_low(fs, generation, owner, s, root, front);
        assert(is_edit(ops[ops.len() - 1]));
        match (steps(fs, generation, owner, s, root, front), ops.last()) {
            (Ok((t, r)), OpV::Edit { key, edit }) => {
                if steps(fs, generation, owner, s, root, ops) is Ok {
                    edit_on_map(fs, generation, owner, t, r, key, edit);
                }
            },
            _ => {},
        }
    }
}

/// Operations on a map in two parts.
pub proof fn map_after_parts(m: Map<Key, Seq<u8>>, a: Seq<OpV>, b: Seq<OpV>)
    ensures
        map_after_all(m, a + b) == map_after_all(map_after_all(m, a), b),
    decreases b.len(),
{
    if b.len() == 0 {
        assert(a + b =~= a);
    } else {
        assert((a + b).drop_last() =~= a + b.drop_last());
        map_after_parts(m, a, b.drop_last());
    }
}

/// The key that an operation is about.
pub open spec fn op_key(op: OpV) -> Key {
    match op {
        OpV::Insert { key, .. } => key,
        OpV::Edit { key, .. } => key,
        OpV::Append { key, .. } => key,
    }
}

/// Operations about other keys leave a key of a map alone.
pub proof fn ops_elsewhere(m: Map<Key, Seq<u8>>, ops: Seq<OpV>, k: Key)
    requires
        forall|i: int| 0 <= i < ops.len() ==> op_key(#[trigger] ops[i]) != k,
    ensures
        map_after_all(m, ops).contains_key(k) == m.contains_key(k),
        m.contains_key(k) ==> map_after_all(m, ops)[k] == m[k],
    decreases ops.len(),
{
    if ops.len() > 0 {
        let front = ops.drop_last();
        assert forall|i: int| 0 <= i < front.len() implies op_key(#[trigger] front[i]) != k by {
            assert(front[i] == ops[i]);
        }
        ops_elsewhere(m, front, k);
        assert(op_key(ops[ops.len() - 1]) != k);
    }
}

/// Operations on a map in two parts are allowed if each part is.
pub proof fn allowed_parts(m: Map<Key, Seq<u8>>, a: Seq<OpV>, b: Seq<OpV>)
    ensures
        all_allowed(m, a + b) == (all_allowed(m, a) && all_allowed(map_after_all(m, a), b)),
    decreases b.len(),
{
    if b.len() == 0 {
        assert(a + b =~= a);
    } else {
        assert((a + b).drop_last() =~= a + b.drop_last());
        allowed_parts(m, a, b.drop_last());
        map_after_parts(m, a, b.drop_last());
    }
}

/// The trees stay within reach while `ops` are done on the files and the
/// transaction is finished.
pub open spec fn all_low(fs: FsV, generation: u64, space: Seq<BgV>, ops: Seq<OpV>, seen: Lookups) -> bool {
    &&& stays_low(fs, generation, FS_TREE_OBJECTID, fresh_state(space), files_root(fs), ops)
    &&& steps(
        fs,
        generation,
        FS_TREE_OBJECTID,
        fresh_state(space),
        files_root(fs),
        ops,
    ) matches Ok((s, r)) ==> finish_low(fs, only_files(fs, generation, r), s, seen.fst)
}

/// A transaction that changes files does to the tree of the files, as a map,
/// just what its operations say.
pub proof fn files_change_as_told(
    fs: FsV,
    generation: u64,
    space: Seq<BgV>,
    ops: Seq<OpV>,
    seen: Lookups,
)
    requires
        fit_to_change(fs, space),
        all_low(fs, generation, space, ops, seen),
        files_changed(fs, generation, space, ops, seen) is Ok,
    ensures
        ({
            let t = files_changed(fs, generation, space, ops, seen)->Ok_0;
            &&& orderly(fs, state_of(t), files_of(t))
            &&& orderly(fs, state_of(t), t.root)
            &&& moves_files(fs, t)
            &&& root_follows(
                fs,
                contents(fs, fresh_state(space), top_root(fs)),
                contents(fs, state_of(t), t.root),
                t,
            )
            &&& all_allowed(contents(fs, fresh_state(space), files_root(fs)), ops)
            &&& contents(fs, state_of(t), files_of(t)) == map_after_all(
                contents(fs, fresh_state(space), files_root(fs)),
                ops,
            )
        }),
{
    let s0 = fresh_state(space);
    let files = files_root(fs);
    let (s, r) = steps(fs, generation, FS_TREE_OBJECTID, s0, files, ops)->Ok_0;
    steps_on_map(fs, generation, FS_TREE_OBJECTID, s0, files, ops);
    files_change_keeps(fs, s0, s, files, r, None);
    let c = only_files(fs, generation, r);
    let t = files_changed(fs, generation, space, ops, seen)->Ok_0;
    finish_keeps_files(fs, c, s, seen.fst, extent_root(fs));
    root_ops_follow(
        fs,
        c,
        contents(fs, s, top_root(fs)),
        contents(fs, state_of(t), t.root),
        t,
    );
}

/// Freeing an extent offers nothing new.
proof fn freed_extent_offers_nothing(m: Seq<BgV>, a: u64, size: u64, x: int)
    requires
        free_extent(m, a, size) is Ok,
    ensures
        offered(free_extent(m, a, size)->Ok_0, x) == offered(m, x),
{
    reveal(free_extent);
    let b = (a + size) as u64;
    let f = |x: BgV| x.contains(a, b);
    first_idx_props(m, f);
    let g = first_idx(m, f);
    if size > 0 {
        let n = free_extent(m, a, size)->Ok_0;
        assert(n == m.update(g, n[g]));
        pinning_offers_nothing(m, g, n[g], x);
    }
}

/// Freeing data extents offers nothing new.
pub proof fn freed_spans_offer_nothing(m: Seq<BgV>, spans: Seq<Span>, x: int)
    requires
        spans_freed(m, spans) is Ok,
    ensures
        offered(spans_freed(m, spans)->Ok_0, x) == offered(m, x),
    decreases spans.len(),
{
    if spans.len() > 0 {
        freed_spans_offer_nothing(m, spans.drop_last(), x);
        freed_extent_offers_nothing(
            spans_freed(m, spans.drop_last())->Ok_0,
            spans.last().start,
            spans.last().len,
            x,
        );
    }
}

/// What is offered is all that counts of the free space, and less of it does no
/// harm.
pub proof fn offers_framed(fs: FsV, s: StateV, t: StateV, files: (u64, u8), sums: Option<(u64, u8)>)
    requires
        grove(fs, s, top_root(fs), extent_root(fs), files),
        sums matches Some(x) ==> sums_aside(fs, s, x, files),
        t.pending == s.pending,
        forall|a: int| #[trigger] offered(t.space, a) <= offered(s.space, a),
    ensures
        grove(fs, t, top_root(fs), extent_root(fs), files),
        sums matches Some(x) ==> sums_aside(fs, t, x, files),
        contents(fs, t, files) == contents(fs, s, files),
        contents(fs, t, top_root(fs)) == contents(fs, s, top_root(fs)),
{
    assert(tidy(t.space)) by {
        assert forall|a: int| #[trigger] offered(t.space, a) <= 1 by {
            assert(offered(t.space, a) <= offered(s.space, a));
            assert(offered(s.space, a) <= 1);
        }
    }
    less_offered(fs, s, t, top_root(fs));
    less_offered(fs, s, t, extent_root(fs));
    less_offered(fs, s, t, files);
    match sums {
        Some(x) => {
            less_offered(fs, s, t, x);
        },
        None => {},
    }
}

proof fn less_offered(fs: FsV, s: StateV, t: StateV, x: (u64, u8))
    requires
        unoffered(fs, s.pending, x.0, x.1, s.space),
        t.pending == s.pending,
        forall|a: int| #[trigger] offered(t.space, a) <= offered(s.space, a),
    ensures
        unoffered(fs, t.pending, x.0, x.1, t.space),
{
    assert forall|a: u64| #[trigger] in_tree(fs, t.pending, x.0, x.1, a) implies offered(
        t.space,
        a as int,
    ) == 0 by {
        assert(offered(t.space, a as int) <= offered(s.space, a as int));
    }
}

/// The trees stay within reach once the files were changed, while `spans` are
/// dropped and the transaction is finished.
pub open spec fn drop_low(
    fs: FsV,
    generation: u64,
    space: Seq<BgV>,
    ops: Seq<OpV>,
    spans: Seq<Span>,
    seen: Lookups,
) -> bool {
    steps(
        fs,
        generation,
        FS_TREE_OBJECTID,
        fresh_state(space),
        files_root(fs),
        ops,
    ) matches Ok((s, r)) ==> {
        &&& sums_root(fs, seen.csum) matches Some(x) ==> (spans_freed(
            s.space,
            spans,
        ) matches Ok(space) ==> stays_low(
            fs,
            generation,
            CSUM_TREE_OBJECTID,
            (StateV { space, ..s }),
            x,
            trim_plan(fs, x.0, span_pairs(spans)),
        ))
        &&& data_dropped(fs, generation, s, spans, seen.csum) matches Ok((t, c)) ==> finish_low(
            fs,
            drop_changes(fs, generation, r, c, spans),
            t,
            seen.fst,
        )
    }
}

/// A transaction that changes files and drops data does to the tree of the files,
/// as a map, just what its operations on the files say.
pub proof fn files_lose_as_told(
    fs: FsV,
    generation: u64,
    space: Seq<BgV>,
    ops: Seq<OpV>,
    spans: Seq<Span>,
    seen: Lookups,
)
    requires
        fit_for_data(fs, space, seen.csum),
        stays_low(fs, generation, FS_TREE_OBJECTID, fresh_state(space), files_root(fs), ops),
        drop_low(fs, generation, space, ops, spans, seen),
        spans_lost(fs, generation, space, ops, spans, seen) is Ok,
    ensures
        ({
            let t = spans_lost(fs, generation, space, ops, spans, seen)->Ok_0;
            &&& files_of(t) == steps(
                fs,
                generation,
                FS_TREE_OBJECTID,
                fresh_state(space),
                files_root(fs),
                ops,
            )->Ok_0.1
            &&& orderly(fs, state_of(t), files_of(t))
            &&& orderly(fs, state_of(t), t.root)
            &&& t.generation == generation
            &&& moves_files(fs, t)
            &&& root_follows(
                fs,
                contents(fs, fresh_state(space), top_root(fs)),
                contents(fs, state_of(t), t.root),
                t,
            )
            &&& all_allowed(contents(fs, fresh_state(space), files_root(fs)), ops)
            &&& contents(fs, state_of(t), files_of(t)) == map_after_all(
                contents(fs, fresh_state(space), files_root(fs)),
                ops,
            )
        }),
{
    let s0 = fresh_state(space);
    let files = files_root(fs);
    let sums = sums_root(fs, seen.csum);
    let (s, r) = steps(fs, generation, FS_TREE_OBJECTID, s0, files, ops)->Ok_0;
    steps_on_map(fs, generation, FS_TREE_OBJECTID, s0, files, ops);
    files_change_keeps(fs, s0, s, files, r, sums);
    let freed = spans_freed(s.space, spans)->Ok_0;
    let u = StateV { space: freed, ..s };
    assert forall|a: int| #[trigger] offered(u.space, a) == offered(s.space, a) by {
        freed_spans_offer_nothing(s.space, spans, a);
    }
    offers_framed(fs, s, u, r, sums);
    let (t, c) = data_dropped(fs, generation, s, spans, seen.csum)->Ok_0;
    assert(csums_dropped(fs, generation, u, spans, seen.csum) == Ok::<
        (StateV, Option<(u64, u8)>),
        Fault,
    >((t, c)));
    if c is Some {
        let x = sums->Some_0;
        sums_steps_keep(fs, generation, u, x, r, trim_plan(fs, x.0, span_pairs(spans)));
    } else {
        assert(t == u);
    }
    let d = drop_changes(fs, generation, r, c, spans);
    assert(extent_start(fs, d) == Ok::<(u64, u8), Fault>(extent_root(fs)));
    finish_keeps_files(fs, d, t, seen.fst, extent_root(fs));
    let done = spans_lost(fs, generation, space, ops, spans, seen)->Ok_0;
    root_ops_follow(
        fs,
        d,
        contents(fs, t, top_root(fs)),
        contents(fs, state_of(done), done.root),
        done,
    );
}

/// The trees stay within reach while the files are changed, the checksums of
/// `content` at `at` are added and the transaction is finished.
pub open spec fn write_low(
    fs: FsV,
    generation: u64,
    space: Seq<BgV>,
    ops: Seq<OpV>,
    ino: u64,
    at: u64,
    content: Seq<u8>,
    seen: Lookups,
) -> bool {
    let len = disk_len(content.len() as int, fs.sb.sector_size);
    let all = with_extent(ops, generation, ino, at, len);
    &&& stays_low(fs, generation, FS_TREE_OBJECTID, fresh_state(space), files_root(fs), all)
    &&& steps(
        fs,
        generation,
        FS_TREE_OBJECTID,
        fresh_state(space),
        files_root(fs),
        all,
    ) matches Ok((s, r)) ==> {
        &&& sums_root(fs, seen.csum) matches Some(x) ==> (csum_tiles(
            fs.sb.csum_type,
            fs.sb.node_size,
            fs.sb.sector_size,
            at,
            len,
            content,
        ) matches Ok(items) ==> stays_low(
            fs,
            generation,
            CSUM_TREE_OBJECTID,
            s,
            x,
            csum_ops(items),
        ))
        &&& csums_added(fs, generation, s, at, content, seen.csum) matches Ok((t, c))
            ==> finish_low(fs, data_changes(fs, generation, r, c, ino, at, content), t, seen.fst)
    }
}

/// A transaction that writes data for a file does to the tree of the files, as
/// a map, just what its operations on the files say; the data is among what it
/// writes.
pub proof fn files_gain_as_told(
    fs: FsV,
    generation: u64,
    space: Seq<BgV>,
    ops: Seq<OpV>,
    ino: u64,
    at: u64,
    content: Seq<u8>,
    seen: Lookups,
)
    requires
        fit_for_data(fs, space, seen.csum),
        write_low(fs, generation, space, ops, ino, at, content, seen),
        data_written(fs, generation, space, ops, ino, at, content, seen) is Ok,
    ensures
        ({
            let t = data_written(fs, generation, space, ops, ino, at, content, seen)->Ok_0;
            let len = disk_len(content.len() as int, fs.sb.sector_size);
            &&& orderly(fs, state_of(t), files_of(t))
            &&& orderly(fs, state_of(t), t.root)
            &&& moves_files(fs, t)
            &&& root_follows(
                fs,
                contents(fs, fresh_state(space), top_root(fs)),
                contents(fs, state_of(t), t.root),
                t,
            )
            &&& t.data == if len > 0 {
                seq![(at, padded(content, fs.sb.sector_size))]
            } else {
                Seq::empty()
            }
            &&& all_allowed(
                contents(fs, fresh_state(space), files_root(fs)),
                with_extent(ops, generation, ino, at, len),
            )
            &&& contents(fs, state_of(t), files_of(t)) == map_after_all(
                contents(fs, fresh_state(space), files_root(fs)),
                with_extent(ops, generation, ino, at, len),
            )
        }),
{
    let s0 = fresh_state(space);
    let files = files_root(fs);
    let sums = sums_root(fs, seen.csum);
    let len = disk_len(content.len() as int, fs.sb.sector_size);
    let all = with_extent(ops, generation, ino, at, len);
    let (s, r) = steps(fs, generation, FS_TREE_OBJECTID, s0, files, all)->Ok_0;
    steps_on_map(fs, generation, FS_TREE_OBJECTID, s0, files, all);
    files_change_keeps(fs, s0, s, files, r, sums);
    let (t, c) = csums_added(fs, generation, s, at, content, seen.csum)->Ok_0;
    if c is Some {
        let items = csum_tiles(
            fs.sb.csum_type,
            fs.sb.node_size,
            fs.sb.sector_size,
            at,
            len,
            content,
        )->Ok_0;
        sums_steps_keep(fs, generation, s, sums->Some_0, r, csum_ops(items));
    } else {
        assert(t == s);
    }
    let d = data_changes(fs, generation, r, c, ino, at, content);
    assert(extent_start(fs, d) == Ok::<(u64, u8), Fault>(extent_root(fs)));
    finish_keeps_files(fs, d, t, seen.fst, extent_root(fs));
    let done = data_written(fs, generation, space, ops, ino, at, content, seen)->Ok_0;
    root_ops_follow(
        fs,
        d,
        contents(fs, t, top_root(fs)),
        contents(fs, state_of(done), done.root),
        done,
    );
    reveal(finalized);
}

} // verus!
