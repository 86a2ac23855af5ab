//! The extent tree lists the data that a transaction adds, and no longer the
//! data that it drops.

use vstd::prelude::*;

use crate::error::Fault;
use crate::fs::btrfs::files::disk_item;
use crate::fs::btrfs::roots::optional_root;
use crate::fs::btrfs::search::MAX_DEPTH;
use crate::fs::btrfs::tree::{
    Key, EXTENT_ITEM_KEY, EXTENT_TREE_OBJECTID, FREE_SPACE_TREE_OBJECTID, FS_TREE_OBJECTID,
    ROOT_TREE_OBJECTID,
};
use crate::fs::btrfs::volume::{node_at, FsV};
use crate::fs::btrfs::write::change::{
    commits_clear, drop_low, extent_root, files_change_keeps, fit_for_data, freed_spans_offer_nothing,
    offers_framed, op_key, ops_elsewhere, sums_root, sums_steps_keep, top_root,
};
use crate::fs::btrfs::write::commit::committed;
use crate::fs::btrfs::write::contents::in_tree;
use crate::fs::btrfs::write::converge::{
    adding_ops, closed, closing_round, drained, extent_ops, extent_start, finalized,
    has_space_tree, removal_ops, root_ops, round, settled, space_leaf,
    space_tree_rewritten, space_tree_updated, unlist_extent, used_ops, ChangesV, Lookups,
    MAX_CONVERGENCE_ROUNDS,
};
use crate::fs::btrfs::write::csum_delete::trim_plan;
use crate::fs::btrfs::write::grove::{
    closed_low, closing_keeps, closing_low, drained_keeps, drained_low, extent_repoint,
    extent_steps_keep, finish_low, grove, leaf_placed_keeps, one_stays_low, root_steps_keep,
    round_keeps, round_low, space_leaf_placed, space_repoint, space_tree_keeps, state_of,
};
use crate::fs::btrfs::write::handout::offered;
use crate::fs::btrfs::write::node::emit_leaf;
use crate::fs::btrfs::write::readback::{committed_is_found, kept_by};
use crate::fs::btrfs::write::recording::{closed_extents, extent_repointed, leads_to_extents};
use crate::fs::btrfs::write::space::{alloc_meta, free_block, BgV};
use crate::fs::btrfs::write::tree_map::{
    contents, map_after, map_after_all, orderly, search_reads_contents, stays_low, steps_on_map,
};
use crate::fs::btrfs::write::txn::delete::{drop_changes, spans_lost};
use crate::fs::btrfs::write::txn::{files_root, TxnV};
use crate::fs::btrfs::write::unlink::{
    csums_dropped, data_dropped, span_pairs, spans_freed, Span,
};
use crate::fs::btrfs::write::workspace::{fresh_state, steps, OpV, StateV};

verus! {

/// Two extent trees, as maps, list the same data extents.
pub open spec fn lists_data_alike(m: Map<Key, Seq<u8>>, n: Map<Key, Seq<u8>>) -> bool {
    forall|k: Key|
        k.item_type == EXTENT_ITEM_KEY ==> #[trigger] n.contains_key(k) == m.contains_key(k) && (
        m.contains_key(k) ==> n[k] == m[k])
}

/// Operations on other items leave the data extents alone.
proof fn other_items_alike(m: Map<Key, Seq<u8>>, ops: Seq<OpV>)
    requires
        forall|i: int|
            0 <= i < ops.len() ==> op_key(#[trigger] ops[i]).item_type != EXTENT_ITEM_KEY,
    ensures
        lists_data_alike(m, map_after_all(m, ops)),
{
    let n = map_after_all(m, ops);
    assert forall|k: Key| k.item_type == EXTENT_ITEM_KEY implies #[trigger] n.contains_key(k)
        == m.contains_key(k) && (m.contains_key(k) ==> n[k] == m[k]) by {
        ops_elsewhere(m, ops, k);
    }
}

proof fn round_lists(fs: FsV, generation: u64, s: StateV, extent: (u64, u8))
    requires
        fs.sb.node_size > 0,
        orderly(fs, s, extent),
        round_low(fs, generation, s, extent),
        round(fs, generation, s, extent) is Ok,
    ensures
        ({
            let (t, x) = round(fs, generation, s, extent)->Ok_0;
            lists_data_alike(contents(fs, s, extent), contents(fs, t, x))
        }),
{
    reveal(round);
    let a = StateV { remove: Seq::empty(), ..s };
    let off = removal_ops(s.remove);
    let m = contents(fs, s, extent);
    assert(contents(fs, a, extent) == m);
    steps_on_map(fs, generation, EXTENT_TREE_OBJECTID, a, extent, off);
    let (t, x) = steps(fs, generation, EXTENT_TREE_OBJECTID, a, extent, off)->Ok_0;
    other_items_alike(m, off);
    let mid = map_after_all(m, off);
    let b = StateV { add: Seq::empty(), ..t };
    let on = adding_ops(t.add, generation);
    assert(contents(fs, b, x) == contents(fs, t, x));
    steps_on_map(fs, generation, EXTENT_TREE_OBJECTID, b, x, on);
    other_items_alike(mid, on);
    let n = map_after_all(mid, on);
    assert forall|k: Key| k.item_type == EXTENT_ITEM_KEY implies #[trigger] n.contains_key(k)
        == m.contains_key(k) && (m.contains_key(k) ==> n[k] == m[k]) by {
        assert(mid.contains_key(k) == m.contains_key(k));
    }
}

proof fn drained_lists(
    fs: FsV,
    generation: u64,
    s: StateV,
    root: (u64, u8),
    extent: (u64, u8),
    files: (u64, u8),
    rounds: nat,
)
    requires
        fs.sb.node_size > 0,
        grove(fs, s, root, extent, files),
        drained_low(fs, generation, s, extent, rounds),
        drained(fs, generation, s, extent, rounds) is Ok,
    ensures
        ({
            let (t, x) = drained(fs, generation, s, extent, rounds)->Ok_0;
            lists_data_alike(contents(fs, s, extent), contents(fs, t, x))
        }),
    decreases rounds,
{
    if rounds == 0 || settled(s) {
    } else {
        round_lists(fs, generation, s, extent);
        round_keeps(fs, generation, s, root, extent, files);
        let (t, x) = round(fs, generation, s, extent)->Ok_0;
        drained_lists(fs, generation, t, root, x, files, (rounds - 1) as nat);
        alike_follows(
            contents(fs, s, extent),
            contents(fs, t, x),
            contents(
                fs,
                drained(fs, generation, s, extent, rounds)->Ok_0.0,
                drained(fs, generation, s, extent, rounds)->Ok_0.1,
            ),
        );
    }
}

proof fn alike_follows(l: Map<Key, Seq<u8>>, m: Map<Key, Seq<u8>>, n: Map<Key, Seq<u8>>)
    requires
        lists_data_alike(l, m),
        lists_data_alike(m, n),
    ensures
        lists_data_alike(l, n),
{
    assert forall|k: Key| k.item_type == EXTENT_ITEM_KEY implies #[trigger] n.contains_key(k)
        == l.contains_key(k) && (l.contains_key(k) ==> n[k] == l[k]) by {
        assert(m.contains_key(k) == l.contains_key(k));
    }
}

proof fn closing_lists(
    fs: FsV,
    generation: u64,
    s: StateV,
    root: (u64, u8),
    extent: (u64, u8),
    files: (u64, u8),
)
    requires
        fs.sb.node_size > 0,
        grove(fs, s, root, extent, files),
        closing_low(fs, generation, s, root, extent),
        closing_round(fs, generation, s, root, extent) is Ok,
    ensures
        ({
            let (t, r, x) = closing_round(fs, generation, s, root, extent)->Ok_0;
            &&& lists_data_alike(contents(fs, s, extent), contents(fs, t, x))
            &&& leads_to_extents(contents(fs, t, r), x)
        }),
{
    reveal(closing_round);
    round_lists(fs, generation, s, extent);
    round_keeps(fs, generation, s, root, extent, files);
    let (t, x) = round(fs, generation, s, extent)->Ok_0;
    let used = used_ops(t.space);
    extent_steps_keep(fs, generation, t, root, x, files, used);
    let (u, y) = steps(fs, generation, EXTENT_TREE_OBJECTID, t, x, used)->Ok_0;
    other_items_alike(contents(fs, t, x), used);
    let ops = extent_repoint(generation, y);
    one_stays_low(fs, generation, ROOT_TREE_OBJECTID, u, root, ops);
    root_steps_keep(fs, generation, u, root, y, files, ops);
    extent_repointed(contents(fs, u, root), generation, y);
    alike_follows(contents(fs, s, extent), contents(fs, t, x), contents(fs, u, y));
}

proof fn closed_lists(
    fs: FsV,
    generation: u64,
    s: StateV,
    root: (u64, u8),
    extent: (u64, u8),
    files: (u64, u8),
    rounds: nat,
)
    requires
        fs.sb.node_size > 0,
        grove(fs, s, root, extent, files),
        closed_low(fs, generation, s, root, extent, rounds),
        closed(fs, generation, s, root, extent, rounds) is Ok,
    ensures
        ({
            let (t, r) = closed(fs, generation, s, root, extent, rounds)->Ok_0;
            let x = closed_extents(fs, generation, s, root, extent, rounds);
            &&& lists_data_alike(contents(fs, s, extent), contents(fs, t, x))
            &&& leads_to_extents(contents(fs, t, r), x)
            &&& orderly(fs, t, x)
        }),
    decreases rounds,
{
    if rounds > 0 {
        closing_lists(fs, generation, s, root, extent, files);
        closing_keeps(fs, generation, s, root, extent, files);
        let (t, r, x) = closing_round(fs, generation, s, root, extent)->Ok_0;
        if !settled(t) {
            closed_lists(fs, generation, t, r, x, files, (rounds - 1) as nat);
            let (u, _) = closed(fs, generation, t, r, x, (rounds - 1) as nat)->Ok_0;
            let y = closed_extents(fs, generation, t, r, x, (rounds - 1) as nat);
            alike_follows(contents(fs, s, extent), contents(fs, t, x), contents(fs, u, y));
        }
    }
}

proof fn space_tree_lists(
    fs: FsV,
    generation: u64,
    s: StateV,
    root: (u64, u8),
    extent: (u64, u8),
    files: (u64, u8),
    seen: bool,
)
    requires
        fs.sb.node_size > 0,
        grove(fs, s, root, extent, files),
        root.1 < 255,
        space_tree_updated(fs, generation, s, root, seen) is Ok,
    ensures
        ({
            let (t, r) = space_tree_updated(fs, generation, s, root, seen)->Ok_0;
            contents(fs, t, extent) == contents(fs, s, extent)
        }),
{
    if has_space_tree(fs) {
        if let Some(old_root) = optional_root(fs, FREE_SPACE_TREE_OBJECTID, seen) {
            reveal(space_tree_rewritten);
            let gone = old_root.bytenr;
            let (target, rest) = alloc_meta(s.space, fs.sb.node_size, 0)->Some_0;
            let space = free_block(rest, gone, fs.sb.node_size);
            let node = node_at(fs, s.pending, gone)->Ok_0;
            let raw = emit_leaf(
                space_leaf(fs, generation, target, node.flags, node.chunk_tree_uuid, space),
                fs.sb.node_size,
            )->Ok_0;
            let t = space_leaf_placed(s, target, raw, space, gone);
            leaf_placed_keeps(fs, s, root, extent, files, target, rest, raw, gone);
            let ops = space_repoint(generation, target);
            one_stays_low(fs, generation, ROOT_TREE_OBJECTID, t, root, ops);
            root_steps_keep(fs, generation, t, root, extent, files, ops);
        }
    }
}

/// The extent tree that a finished transaction leads to, found through its root
/// tree, is in order and lists just the data extents of the map `m`.
pub open spec fn lists_data_of(fs: FsV, t: TxnV, m: Map<Key, Seq<u8>>) -> bool {
    exists|x: (u64, u8)| #[trigger]
        leads_to_extents(contents(fs, state_of(t), t.root), x) && orderly(fs, state_of(t), x)
            && lists_data_alike(m, contents(fs, state_of(t), x))
}

/// Finishing a transaction leads to an extent tree that lists the data extents
/// as before, with those added that the changes add and those taken off that
/// they drop.
pub proof fn finish_lists_data(fs: FsV, c: ChangesV, s: StateV, fst: bool, extent: (u64, u8))
    requires
        fs.sb.node_size > 0,
        extent_start(fs, c) == Ok::<(u64, u8), Fault>(extent),
        grove(
            fs,
            s,
            (fs.sb.root, fs.sb.root_level),
            extent,
            (c.fs_tree.bytenr, c.fs_tree.level),
        ),
        finish_low(fs, c, s, fst),
        finalized(fs, c, s, fst) is Ok,
    ensures
        lists_data_of(
            fs,
            finalized(fs, c, s, fst)->Ok_0,
            map_after_all(contents(fs, s, extent), extent_ops(c)),
        ),
{
    reveal(finalized);
    let root = (fs.sb.root, fs.sb.root_level);
    let files = (c.fs_tree.bytenr, c.fs_tree.level);
    let g = c.generation;
    let rounds = MAX_CONVERGENCE_ROUNDS as nat;
    let ro = root_ops(fs, c);
    let eo = extent_ops(c);
    root_steps_keep(fs, g, s, root, extent, files, ro);
    let (s1, r1) = steps(fs, g, ROOT_TREE_OBJECTID, s, root, ro)->Ok_0;
    extent_steps_keep(fs, g, s1, r1, extent, files, eo);
    let (s2, x2) = steps(fs, g, EXTENT_TREE_OBJECTID, s1, extent, eo)->Ok_0;
    drained_keeps(fs, g, s2, r1, x2, files, rounds);
    drained_lists(fs, g, s2, r1, x2, files, rounds);
    let (s3, x3) = drained(fs, g, s2, x2, rounds)->Ok_0;
    space_tree_keeps(fs, g, s3, r1, x3, files, fst);
    space_tree_lists(fs, g, s3, r1, x3, files, fst);
    let (s4, r4) = space_tree_updated(fs, g, s3, r1, fst)->Ok_0;
    closed_lists(fs, g, s4, r4, x3, files, rounds);
    let (s5, r5) = closed(fs, g, s4, r4, x3, rounds)->Ok_0;
    let x5 = closed_extents(fs, g, s4, r4, x3, rounds);
    let t = finalized(fs, c, s, fst)->Ok_0;
    let e = state_of(t);
    assert(e.pending == s5.pending && e.space == s5.space);
    assert(contents(fs, e, x5) == contents(fs, s5, x5));
    assert(contents(fs, e, t.root) == contents(fs, s5, r5));
    let m = map_after_all(contents(fs, s, extent), eo);
    alike_follows(m, contents(fs, s3, x3), contents(fs, e, x5));
    assert(leads_to_extents(contents(fs, e, t.root), x5));
}

/// Taking data extents off a map leaves none of them.
proof fn unlisted(m: Map<Key, Seq<u8>>, pairs: Seq<(u64, u64)>, i: int)
    requires
        0 <= i < pairs.len(),
    ensures
        !map_after_all(m, pairs.map_values(|e: (u64, u64)| unlist_extent(e))).contains_key(
            extent_key(pairs[i].0, pairs[i].1),
        ),
    decreases pairs.len(),
{
    let f = |e: (u64, u64)| unlist_extent(e);
    let ops = pairs.map_values(f);
    let front = pairs.drop_last();
    assert(ops.drop_last() =~= front.map_values(f));
    let n = map_after_all(m, ops.drop_last());
    assert(map_after_all(m, ops) == map_after(n, ops.last()));
    if i < front.len() {
        unlisted(m, front, i);
        assert(front[i] == pairs[i]);
    }
}

/// The key under which the extent tree lists a data extent.
pub open spec fn extent_key(at: u64, len: u64) -> Key {
    Key { objectid: at, item_type: EXTENT_ITEM_KEY, offset: len }
}

/// Where dropping data leads before the transaction is finished: the extent tree
/// still lists what it listed.
proof fn dropping_leads(
    fs: FsV,
    generation: u64,
    space: Seq<BgV>,
    ops: Seq<OpV>,
    spans: Seq<Span>,
    seen: Lookups,
)
    requires
        fit_for_data(fs, space, seen.csum),
        stays_low(fs, generation, FS_TREE_OBJECTID, fresh_state(space), files_root(fs), ops),
        drop_low(fs, generation, space, ops, spans, seen),
        spans_lost(fs, generation, space, ops, spans, seen) is Ok,
    ensures
        ({
            let (s, r) = steps(
                fs,
                generation,
                FS_TREE_OBJECTID,
                fresh_state(space),
                files_root(fs),
                ops,
            )->Ok_0;
            let (t, c) = data_dropped(fs, generation, s, spans, seen.csum)->Ok_0;
            &&& grove(fs, t, top_root(fs), extent_root(fs), r)
            &&& contents(fs, t, extent_root(fs)) == contents(
                fs,
                fresh_state(space),
                extent_root(fs),
            )
        }),
{
    let s0 = fresh_state(space);
    let files = files_root(fs);
    let extent = extent_root(fs);
    let sums = sums_root(fs, seen.csum);
    let (s, r) = steps(fs, generation, FS_TREE_OBJECTID, s0, files, ops)->Ok_0;
    steps_on_map(fs, generation, FS_TREE_OBJECTID, s0, files, ops);
    files_change_keeps(fs, s0, s, files, r, sums);
    let u = StateV { space: spans_freed(s.space, spans)->Ok_0, ..s };
    assert forall|a: int| #[trigger] offered(u.space, a) == offered(s.space, a) by {
        freed_spans_offer_nothing(s.space, spans, a);
    }
    offers_framed(fs, s, u, r, sums);
    assert(contents(fs, u, extent) == contents(fs, s, extent));
    let (t, c) = data_dropped(fs, generation, s, spans, seen.csum)->Ok_0;
    assert(csums_dropped(fs, generation, u, spans, seen.csum) == Ok::<
        (StateV, Option<(u64, u8)>),
        Fault,
    >((t, c)));
    if c is Some {
        let x = sums->Some_0;
        sums_steps_keep(fs, generation, u, x, r, trim_plan(fs, x.0, span_pairs(spans)));
    } else {
        assert(t == u);
    }
}

/// An extent tree that lists what `m` lists once `pairs` are taken off has none
/// of these, and lists every other as `m` does.
proof fn taken_off(
    m: Map<Key, Seq<u8>>,
    n: Map<Key, Seq<u8>>,
    pairs: Seq<(u64, u64)>,
    eo: Seq<OpV>,
)
    requires
        eo == pairs.map_values(|e: (u64, u64)| unlist_extent(e)),
        lists_data_alike(map_after_all(m, eo), n),
    ensures
        lacks_data(m, n, pairs),
{
    let after = map_after_all(m, eo);
    assert forall|i: int| 0 <= i < pairs.len() implies !n.contains_key(
        extent_key((#[trigger] pairs[i]).0, pairs[i].1),
    ) by {
        unlisted(m, pairs, i);
        let k = extent_key(pairs[i].0, pairs[i].1);
        assert(n.contains_key(k) == after.contains_key(k));
    }
    assert forall|k: Key|
        k.item_type == EXTENT_ITEM_KEY && !pairs.contains((k.objectid, k.offset)) implies (
    #[trigger] n.contains_key(k) == m.contains_key(k) && (m.contains_key(k) ==> n[k] == m[k])) by {
        assert forall|i: int| 0 <= i < eo.len() implies op_key(#[trigger] eo[i]) != k by {
            assert(pairs[i] == (op_key(eo[i]).objectid, op_key(eo[i]).offset));
        }
        ops_elsewhere(m, eo, k);
        assert(n.contains_key(k) == after.contains_key(k));
    }
}

/// The extent tree that a transaction leads to has no item for a data extent
/// that it dropped, and lists every other as before.
pub proof fn dropped_is_unlisted(
    fs: FsV,
    generation: u64,
    space: Seq<BgV>,
    ops: Seq<OpV>,
    spans: Seq<Span>,
    seen: Lookups,
)
    requires
        fit_for_data(fs, space, seen.csum),
        stays_low(fs, generation, FS_TREE_OBJECTID, fresh_state(space), files_root(fs), ops),
        drop_low(fs, generation, space, ops, spans, seen),
        spans_lost(fs, generation, space, ops, spans, seen) is Ok,
    ensures
        ({
            let t = spans_lost(fs, generation, space, ops, spans, seen)->Ok_0;
            unlists(fs, t, space, span_pairs(spans))
        }),
{
    let s0 = fresh_state(space);
    let extent = extent_root(fs);
    let (s, r) = steps(fs, generation, FS_TREE_OBJECTID, s0, files_root(fs), ops)->Ok_0;
    let (t, c) = data_dropped(fs, generation, s, spans, seen.csum)->Ok_0;
    dropping_leads(fs, generation, space, ops, spans, seen);
    let d = drop_changes(fs, generation, r, c, spans);
    assert(extent_start(fs, d) == Ok::<(u64, u8), Fault>(extent));
    finish_lists_data(fs, d, t, seen.fst, extent);
    let done = spans_lost(fs, generation, space, ops, spans, seen)->Ok_0;
    let m = contents(fs, s0, extent);
    let pairs = span_pairs(spans);
    let eo = extent_ops(d);
    assert(eo =~= pairs.map_values(|e: (u64, u64)| unlist_extent(e)));
    let after = map_after_all(m, eo);
    let x = choose|x: (u64, u8)| #[trigger]
        leads_to_extents(contents(fs, state_of(done), done.root), x) && orderly(
            fs,
            state_of(done),
            x,
        ) && lists_data_alike(after, contents(fs, state_of(done), x));
    taken_off(m, contents(fs, state_of(done), x), pairs, eo);
    assert(leads_to_extents(contents(fs, state_of(done), done.root), x));
}

/// The map `n` has none of the data extents `gone`, and all others as `m` does.
pub open spec fn lacks_data(
    m: Map<Key, Seq<u8>>,
    n: Map<Key, Seq<u8>>,
    gone: Seq<(u64, u64)>,
) -> bool {
    &&& forall|i: int|
        0 <= i < gone.len() ==> !n.contains_key(extent_key((#[trigger] gone[i]).0, gone[i].1))
    &&& forall|k: Key|
        k.item_type == EXTENT_ITEM_KEY && !gone.contains((k.objectid, k.offset)) ==> (
        #[trigger] n.contains_key(k) == m.contains_key(k) && (m.contains_key(k) ==> n[k] == m[k]))
}

/// The extent tree that a transaction leads to is in order, has none of the
/// data extents `gone`, and lists all others as the volume does.
pub open spec fn unlists(fs: FsV, t: TxnV, space: Seq<BgV>, gone: Seq<(u64, u64)>) -> bool {
    let m = contents(fs, fresh_state(space), extent_root(fs));
    exists|x: (u64, u8)| #[trigger]
        leads_to_extents(contents(fs, state_of(t), t.root), x) && orderly(fs, state_of(t), x)
            && lacks_data(m, contents(fs, state_of(t), x), gone)
}

/// A commit of `t` keeps the extent tree that it leads to, so that it is read
/// back.
pub open spec fn keeps_extents(fs: FsV, len: Option<u64>, t: TxnV) -> bool {
    forall|x: (u64, u8)| #[trigger]
        leads_to_extents(contents(fs, state_of(t), t.root), x) ==> x.1 < MAX_DEPTH && forall|a: u64|
            #[trigger] in_tree(fs, t.blocks, x.0, x.1, a) ==> kept_by(fs, len, t, a)
}

/// Once the transaction is committed, the device has an extent tree without the
/// data extents that were dropped.
pub proof fn unlisted_on_device(
    fs: FsV,
    len: Option<u64>,
    t: TxnV,
    space: Seq<BgV>,
    gone: Seq<(u64, u64)>,
    i: int,
)
    requires
        unlists(fs, t, space, gone),
        commits_clear(fs, len, t),
        keeps_extents(fs, len, t),
        0 <= i < gone.len(),
    ensures
        exists|x: (u64, u8)| #[trigger]
            leads_to_extents(contents(fs, state_of(t), t.root), x) && disk_item(
                committed(fs, len, t)->Ok_0.0,
                x.0,
                extent_key(gone[i].0, gone[i].1),
            ) == Ok::<Option<Seq<u8>>, Fault>(None),
{
    let m = contents(fs, fresh_state(space), extent_root(fs));
    let x = choose|x: (u64, u8)| #[trigger]
        leads_to_extents(contents(fs, state_of(t), t.root), x) && orderly(fs, state_of(t), x)
            && lacks_data(m, contents(fs, state_of(t), x), gone);
    let k = extent_key(gone[i].0, gone[i].1);
    assert(!contents(fs, state_of(t), x).contains_key(k));
    search_reads_contents(fs, state_of(t), x, k);
    committed_is_found(fs, len, t, x, k);
}

} // verus!
