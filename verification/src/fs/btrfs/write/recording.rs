//! The extent tree records every block of the trees, and a transaction keeps it
//! so.

use vstd::prelude::*;

use crate::error::Fault;
use crate::fs::btrfs::roots::{optional_root, parse_root};
use crate::fs::btrfs::tree::{
    Key, CSUM_TREE_OBJECTID, EXTENT_TREE_OBJECTID, FREE_SPACE_TREE_OBJECTID, FS_TREE_OBJECTID, METADATA_ITEM_KEY,
    ROOT_ITEM_KEY, ROOT_TREE_OBJECTID,
};
use crate::fs::btrfs::volume::{node_at, FsV};
use crate::fs::btrfs::write::batching::inserted_stays;
use crate::fs::btrfs::write::booking::frees;
use crate::fs::btrfs::write::bookkeeping::{block_key, given_up};
use crate::fs::btrfs::write::change::{
    all_low, beside_other_way, drop_low, extent_root, files_change_keeps, files_of,
    fit_for_data, fit_to_change, freed_spans_offer_nothing, offers_framed, op_key, ops_elsewhere,
    sums_aside, sums_root, sums_steps_keep, top_root, write_low,
};
use crate::fs::btrfs::write::contents::in_tree;
use crate::fs::btrfs::write::converge::{
    adding_ops, closed, closing_round, drained, extent_ops, extent_start, finalized,
    has_space_tree, only_files, removal_ops, root_ops, round, settled, space_leaf,
    space_tree_rewritten, space_tree_updated, used_ops, ChangesV, Lookups, MAX_CONVERGENCE_ROUNDS,
};
use crate::fs::btrfs::write::csum_delete::trim_plan;
use crate::fs::btrfs::write::custody::{noted, notes, steps_note};
use crate::fs::btrfs::write::grove::{
    beside, beside_change, blocks_left, closed_low, closing_keeps, closing_low, drained_keeps, drained_low,
    extent_repoint, extent_steps_keep, finish_keeps_files, finish_low, grove, leaf_placed_keeps, one_stays_low,
    root_steps_keep, round_keeps, round_low, space_leaf_placed, space_repoint, space_tree_keeps,
    state_of,
};
use crate::fs::btrfs::write::handout::offered;
use crate::fs::btrfs::write::node::emit_leaf;
use crate::fs::btrfs::write::remount::repointed_reads_back;
use crate::fs::btrfs::write::removal::deletions_on_map;
use crate::fs::btrfs::write::space::{alloc_meta, free_block, BgV};
use crate::fs::btrfs::write::tree_map::{
    all_allowed, allowed, confined, contents, map_after, map_after_all, orderly, stays_low,
    steps_on_map,
};
use crate::fs::btrfs::write::payload::csum_tiles;
use crate::fs::btrfs::write::txn::data::{
    csum_ops, csums_added, data_changes, data_written, disk_len, with_extent,
};
use crate::fs::btrfs::write::txn::delete::{drop_changes, spans_lost};
use crate::fs::btrfs::write::txn::{files_changed, files_root, TxnV};
use crate::fs::btrfs::write::unlink::{
    csums_dropped, data_dropped, deletions, span_pairs, spans_freed, Span,
};
use crate::fs::btrfs::write::workspace::{fresh_state, steps, OpV, StateV};

verus! {

/// Whether an extent tree, as a map, records block `a`.
pub open spec fn on_record(m: Map<Key, Seq<u8>>, a: u64) -> bool {
    exists|l: u8| #[trigger] m.contains_key(block_key(a, l))
}

/// Every block of a tree is recorded in `m`, or noted, or on `list`.
pub open spec fn covered(
    fs: FsV,
    s: StateV,
    m: Map<Key, Seq<u8>>,
    list: Seq<(u64, u8, u64)>,
    x: (u64, u8),
) -> bool {
    forall|a: u64| #[trigger]
        in_tree(fs, s.pending, x.0, x.1, a) ==> noted(s.add, a) || on_record(m, a) || noted(list, a)
}

/// Whether block `b` is neither free nor part of one of three trees.
pub open spec fn outside(
    fs: FsV,
    s: StateV,
    x: (u64, u8),
    y: (u64, u8),
    z: (u64, u8),
    b: u64,
) -> bool {
    &&& offered(s.space, b as int) == 0
    &&& !in_tree(fs, s.pending, x.0, x.1, b)
    &&& !in_tree(fs, s.pending, y.0, y.1, b)
    &&& !in_tree(fs, s.pending, z.0, z.1, b)
}

/// Every block of three trees is accounted for, and what is noted as given up
/// is not theirs.
pub open spec fn accounted(
    fs: FsV,
    s: StateV,
    m: Map<Key, Seq<u8>>,
    list: Seq<(u64, u8, u64)>,
    x: (u64, u8),
    y: (u64, u8),
    z: (u64, u8),
) -> bool {
    &&& covered(fs, s, m, list, x)
    &&& covered(fs, s, m, list, y)
    &&& covered(fs, s, m, list, z)
    &&& forall|b: u64| #[trigger] frees(s.remove, b) ==> outside(fs, s, x, y, z, b)
}

/// A change of one of three trees keeps them accounted for.
proof fn change_accounted(
    fs: FsV,
    s: StateV,
    t: StateV,
    m: Map<Key, Seq<u8>>,
    list: Seq<(u64, u8, u64)>,
    x: (u64, u8),
    at: (u64, u8),
    y: (u64, u8),
    z: (u64, u8),
)
    requires
        confined(fs, s, t, x, at),
        notes(fs, s, t, x, at),
        orderly(fs, s, x),
        orderly(fs, s, y),
        orderly(fs, s, z),
        beside(fs, s, x, y),
        beside(fs, s, x, z),
        accounted(fs, s, m, list, x, y, z),
    ensures
        accounted(fs, t, m, list, at, y, z),
        forall|b: u64| outside(fs, s, x, y, z, b) ==> #[trigger] outside(fs, t, at, y, z, b),
{
    blocks_left(fs, s, t, x, at, y);
    blocks_left(fs, s, t, x, at, z);
    assert forall|b: u64| outside(fs, s, x, y, z, b) implies #[trigger] outside(
        fs,
        t,
        at,
        y,
        z,
        b,
    ) by {
        assert(offered(t.space, b as int) <= offered(s.space, b as int));
        assert(in_tree(fs, t.pending, y.0, y.1, b) == in_tree(fs, s.pending, y.0, y.1, b));
        assert(in_tree(fs, t.pending, z.0, z.1, b) == in_tree(fs, s.pending, z.0, z.1, b));
    }
    still_covered(fs, s, t, m, list, x, at, y);
    still_covered(fs, s, t, m, list, x, at, z);
    assert forall|b: u64| #[trigger] frees(t.remove, b) implies outside(fs, t, at, y, z, b) by {
        if frees(s.remove, b) {
            assert(outside(fs, s, x, y, z, b));
        } else {
            assert(in_tree(fs, t.pending, y.0, y.1, b) == in_tree(fs, s.pending, y.0, y.1, b));
            assert(in_tree(fs, t.pending, z.0, z.1, b) == in_tree(fs, s.pending, z.0, z.1, b));
            if in_tree(fs, s.pending, x.0, x.1, b) {
                assert(!in_tree(fs, s.pending, y.0, y.1, b));
                assert(!in_tree(fs, s.pending, z.0, z.1, b));
            }
        }
    }
}

/// A tree beside the one that changes stays covered.
proof fn still_covered(
    fs: FsV,
    s: StateV,
    t: StateV,
    m: Map<Key, Seq<u8>>,
    list: Seq<(u64, u8, u64)>,
    x: (u64, u8),
    at: (u64, u8),
    y: (u64, u8),
)
    requires
        confined(fs, s, t, x, at),
        notes(fs, s, t, x, at),
        orderly(fs, s, y),
        beside(fs, s, x, y),
        covered(fs, s, m, list, y),
    ensures
        covered(fs, t, m, list, y),
{
    blocks_left(fs, s, t, x, at, y);
    assert forall|a: u64| #[trigger] in_tree(fs, t.pending, y.0, y.1, a) implies noted(t.add, a)
        || on_record(m, a) || noted(list, a) by {
        assert(in_tree(fs, s.pending, y.0, y.1, a));
        if in_tree(fs, s.pending, x.0, x.1, a) {
            assert(!in_tree(fs, s.pending, y.0, y.1, a));
        }
        if noted(s.add, a) {
            assert(offered(s.space, a as int) == 0);
        }
    }
}

/// Another map that records what matters will do.
proof fn recorded_elsewhere(
    fs: FsV,
    s: StateV,
    m: Map<Key, Seq<u8>>,
    list: Seq<(u64, u8, u64)>,
    n: Map<Key, Seq<u8>>,
    rest: Seq<(u64, u8, u64)>,
    x: (u64, u8),
    y: (u64, u8),
    z: (u64, u8),
)
    requires
        accounted(fs, s, m, list, x, y, z),
        forall|a: u64|
            (in_tree(fs, s.pending, x.0, x.1, a) || in_tree(fs, s.pending, y.0, y.1, a) || in_tree(
                fs,
                s.pending,
                z.0,
                z.1,
                a,
            )) && (on_record(m, a) || noted(list, a)) ==> #[trigger] on_record(n, a) || noted(
                rest,
                a,
            ),
    ensures
        accounted(fs, s, n, rest, x, y, z),
{
    assert forall|a: u64| #[trigger] in_tree(fs, s.pending, x.0, x.1, a) implies noted(s.add, a)
        || on_record(n, a) || noted(rest, a) by {}
    assert forall|a: u64| #[trigger] in_tree(fs, s.pending, y.0, y.1, a) implies noted(s.add, a)
        || on_record(n, a) || noted(rest, a) by {}
    assert forall|a: u64| #[trigger] in_tree(fs, s.pending, z.0, z.1, a) implies noted(s.add, a)
        || on_record(n, a) || noted(rest, a) by {}
}

/// Operations on the root tree keep the trees accounted for.
proof fn root_steps_accounted(
    fs: FsV,
    generation: u64,
    s: StateV,
    root: (u64, u8),
    extent: (u64, u8),
    files: (u64, u8),
    ops: Seq<OpV>,
)
    requires
        fs.sb.node_size > 0,
        grove(fs, s, root, extent, files),
        stays_low(
            fs,
            generation,
            ROOT_TREE_OBJECTID,
            s,
            root,
            ops,
        ),
        steps(fs, generation, ROOT_TREE_OBJECTID, s, root, ops) is Ok,
        accounted(fs, s, contents(fs, s, extent), Seq::empty(), root, extent, files),
    ensures
        ({
            let (t, r) = steps(fs, generation, ROOT_TREE_OBJECTID, s, root, ops)->Ok_0;
            &&& accounted(fs, t, contents(fs, t, extent), Seq::empty(), r, extent, files)
            &&& forall|b: u64|
                outside(fs, s, root, extent, files, b) ==> #[trigger] outside(
                    fs,
                    t,
                    r,
                    extent,
                    files,
                    b,
                )
        }),
{
    let (t, r) = steps(fs, generation, ROOT_TREE_OBJECTID, s, root, ops)->Ok_0;
    root_steps_keep(fs, generation, s, root, extent, files, ops);
    steps_on_map(fs, generation, ROOT_TREE_OBJECTID, s, root, ops);
    steps_note(fs, generation, ROOT_TREE_OBJECTID, s, root, ops);
    change_accounted(
        fs,
        s,
        t,
        contents(fs, s, extent),
        Seq::empty(),
        root,
        r,
        extent,
        files,
    );
}

/// Operations on the extent tree keep the trees accounted for, by the extent
/// tree as it was.
proof fn extent_steps_accounted(
    fs: FsV,
    generation: u64,
    s: StateV,
    m: Map<Key, Seq<u8>>,
    list: Seq<(u64, u8, u64)>,
    root: (u64, u8),
    extent: (u64, u8),
    files: (u64, u8),
    ops: Seq<OpV>,
)
    requires
        fs.sb.node_size > 0,
        grove(fs, s, root, extent, files),
        stays_low(
            fs,
            generation,
            EXTENT_TREE_OBJECTID,
            s,
            extent,
            ops,
        ),
        steps(fs, generation, EXTENT_TREE_OBJECTID, s, extent, ops) is Ok,
        accounted(fs, s, m, list, root, extent, files),
    ensures
        ({
            let (t, x) = steps(fs, generation, EXTENT_TREE_OBJECTID, s, extent, ops)->Ok_0;
            &&& accounted(fs, t, m, list, root, x, files)
            &&& forall|b: u64|
                outside(fs, s, root, extent, files, b) ==> #[trigger] outside(
                    fs,
                    t,
                    root,
                    x,
                    files,
                    b,
                )
        }),
{
    let (t, x) = steps(fs, generation, EXTENT_TREE_OBJECTID, s, extent, ops)->Ok_0;
    steps_on_map(fs, generation, EXTENT_TREE_OBJECTID, s, extent, ops);
    steps_note(fs, generation, EXTENT_TREE_OBJECTID, s, extent, ops);
    beside_other_way(fs, s, root, extent);
    assert(accounted(fs, s, m, list, extent, root, files)) by {
        assert forall|b: u64| #[trigger] frees(s.remove, b) implies outside(
            fs,
            s,
            extent,
            root,
            files,
            b,
        ) by {
            assert(outside(fs, s, root, extent, files, b));
        }
    }
    change_accounted(fs, s, t, m, list, extent, x, root, files);
    assert forall|b: u64| #[trigger] frees(t.remove, b) implies outside(
        fs,
        t,
        root,
        x,
        files,
        b,
    ) by {
        assert(outside(fs, t, x, root, files, b));
    }
    assert forall|b: u64| outside(fs, s, root, extent, files, b) implies #[trigger] outside(
        fs,
        t,
        root,
        x,
        files,
        b,
    ) by {
        assert(outside(fs, s, extent, root, files, b));
        assert(outside(fs, t, x, root, files, b));
    }
}

/// Operations on other items do not touch the record of blocks.
proof fn record_untouched(m: Map<Key, Seq<u8>>, ops: Seq<OpV>, a: u64)
    requires
        forall|i: int|
            0 <= i < ops.len() ==> op_key(#[trigger] ops[i]).item_type != METADATA_ITEM_KEY,
        on_record(m, a),
    ensures
        on_record(map_after_all(m, ops), a),
{
    let l = choose|l: u8| #[trigger] m.contains_key(block_key(a, l));
    ops_elsewhere(m, ops, block_key(a, l));
    assert(map_after_all(m, ops).contains_key(block_key(a, l)));
}

/// Inserting loses nothing.
proof fn inserts_lose_nothing(m: Map<Key, Seq<u8>>, ops: Seq<OpV>, k: Key)
    requires
        forall|i: int| 0 <= i < ops.len() ==> (#[trigger] ops[i]) is Insert,
        m.contains_key(k),
    ensures
        map_after_all(m, ops).contains_key(k),
    decreases ops.len(),
{
    if ops.len() > 0 {
        let front = ops.drop_last();
        assert forall|i: int| 0 <= i < front.len() implies (#[trigger] front[i]) is Insert by {
            assert(front[i] == ops[i]);
        }
        inserts_lose_nothing(m, front, k);
        assert(ops[ops.len() - 1] is Insert);
    }
}

/// Taking blocks off does not touch the record of others.
proof fn record_after_removal(m: Map<Key, Seq<u8>>, remove: Seq<(u64, u8)>, a: u64)
    requires
        on_record(m, a),
        !frees(remove, a),
    ensures
        on_record(map_after_all(m, removal_ops(remove)), a),
{
    let keys = given_up(remove);
    assert(removal_ops(remove) =~= deletions(keys));
    deletions_on_map(m, keys);
    let l = choose|l: u8| #[trigger] m.contains_key(block_key(a, l));
    let k = block_key(a, l);
    if keys.contains(k) {
        let i = choose|i: int| 0 <= i < keys.len() && keys[i] == k;
        assert(remove[i].0 == a);
    }
    assert(map_after_all(m, removal_ops(remove)).contains_key(k));
}

/// Recording blocks loses nothing, and records them.
proof fn record_after_adding(
    m: Map<Key, Seq<u8>>,
    add: Seq<(u64, u8, u64)>,
    generation: u64,
    a: u64,
)
    requires
        all_allowed(m, adding_ops(add, generation)),
        on_record(m, a) || noted(add, a),
    ensures
        on_record(map_after_all(m, adding_ops(add, generation)), a),
{
    let ops = adding_ops(add, generation);
    let n = map_after_all(m, ops);
    assert forall|i: int| 0 <= i < ops.len() implies (#[trigger] ops[i]) is Insert by {}
    if on_record(m, a) {
        let l = choose|l: u8| #[trigger] m.contains_key(block_key(a, l));
        inserts_lose_nothing(m, ops, block_key(a, l));
        assert(n.contains_key(block_key(a, l)));
    } else {
        let i = choose|i: int| 0 <= i < add.len() && (#[trigger] add[i]).0 == a;
        match ops[i] {
            OpV::Insert { key, data } => {
                inserted_stays(m, ops, i, key, data);
                assert(key == block_key(a, add[i].1));
                assert(n.contains_key(block_key(a, add[i].1)));
            },
            _ => {},
        }
    }
}

/// The trees of a state are accounted for by its own extent tree.
pub open spec fn in_account(
    fs: FsV,
    s: StateV,
    root: (u64, u8),
    extent: (u64, u8),
    files: (u64, u8),
) -> bool {
    accounted(fs, s, contents(fs, s, extent), Seq::empty(), root, extent, files)
}

/// What is outside stays outside.
pub open spec fn stays_outside(
    fs: FsV,
    s: StateV,
    root: (u64, u8),
    extent: (u64, u8),
    t: StateV,
    r: (u64, u8),
    x: (u64, u8),
    files: (u64, u8),
) -> bool {
    forall|b: u64|
        outside(fs, s, root, extent, files, b) ==> #[trigger] outside(fs, t, r, x, files, b)
}

/// A round of bookkeeping keeps the trees accounted for.
proof fn round_accounted(
    fs: FsV,
    generation: u64,
    s: StateV,
    root: (u64, u8),
    extent: (u64, u8),
    files: (u64, u8),
)
    requires
        fs.sb.node_size > 0,
        grove(fs, s, root, extent, files),
        round_low(fs, generation, s, extent),
        round(fs, generation, s, extent) is Ok,
        in_account(fs, s, root, extent, files),
    ensures
        ({
            let (t, x) = round(fs, generation, s, extent)->Ok_0;
            &&& in_account(fs, t, root, x, files)
            &&& stays_outside(fs, s, root, extent, t, root, x, files)
        }),
{
    reveal(round);
    let none = Seq::<(u64, u8, u64)>::empty();
    let m = contents(fs, s, extent);
    let a = StateV { remove: Seq::empty(), ..s };
    let off = removal_ops(s.remove);
    assert(grove(fs, a, root, extent, files));
    assert(contents(fs, a, extent) == m);
    assert(accounted(fs, a, m, none, root, extent, files));
    extent_steps_accounted(fs, generation, a, m, none, root, extent, files, off);
    extent_steps_keep(fs, generation, a, root, extent, files, off);
    let (t, x) = steps(fs, generation, EXTENT_TREE_OBJECTID, a, extent, off)->Ok_0;
    let mid = contents(fs, t, x);
    assert(mid == map_after_all(m, off));
    assert forall|b: u64| #[trigger] frees(s.remove, b) implies outside(
        fs,
        t,
        root,
        x,
        files,
        b,
    ) by {
        assert(outside(fs, s, root, extent, files, b));
        assert(outside(fs, a, root, extent, files, b));
    }
    let b = StateV { add: Seq::empty(), ..t };
    assert(accounted(fs, b, mid, t.add, root, x, files)) by {
        covered_after_removal(fs, s, t, b, m, mid, root, x, files, root);
        covered_after_removal(fs, s, t, b, m, mid, root, x, files, x);
        covered_after_removal(fs, s, t, b, m, mid, root, x, files, files);
        assert forall|y: u64| #[trigger] frees(b.remove, y) implies outside(
            fs,
            b,
            root,
            x,
            files,
            y,
        ) by {
            assert(outside(fs, t, root, x, files, y));
        }
    }
    assert(grove(fs, b, root, x, files));
    assert(contents(fs, b, x) == mid);
    let on = adding_ops(t.add, generation);
    extent_steps_accounted(fs, generation, b, mid, t.add, root, x, files, on);
    extent_steps_keep(fs, generation, b, root, x, files, on);
    let (u, y) = steps(fs, generation, EXTENT_TREE_OBJECTID, b, x, on)->Ok_0;
    let last = contents(fs, u, y);
    assert forall|z: u64| (on_record(mid, z) || noted(t.add, z)) implies #[trigger] on_record(
        last,
        z,
    ) || noted(none, z) by {
        record_after_adding(mid, t.add, generation, z);
    }
    recorded_elsewhere(fs, u, mid, t.add, last, none, root, y, files);
    assert forall|z: u64| outside(fs, s, root, extent, files, z) implies #[trigger] outside(
        fs,
        u,
        root,
        y,
        files,
        z,
    ) by {
        assert(outside(fs, a, root, extent, files, z));
        assert(outside(fs, t, root, x, files, z));
        assert(outside(fs, b, root, x, files, z));
    }
}

proof fn covered_after_removal(
    fs: FsV,
    s: StateV,
    t: StateV,
    b: StateV,
    m: Map<Key, Seq<u8>>,
    mid: Map<Key, Seq<u8>>,
    root: (u64, u8),
    x: (u64, u8),
    files: (u64, u8),
    tree: (u64, u8),
)
    requires
        covered(fs, t, m, Seq::empty(), tree),
        tree == root || tree == x || tree == files,
        mid == map_after_all(m, removal_ops(s.remove)),
        b == (StateV { add: Seq::empty(), ..t }),
        forall|y: u64| #[trigger] frees(s.remove, y) ==> outside(fs, t, root, x, files, y),
    ensures
        covered(fs, b, mid, t.add, tree),
{
    assert forall|a: u64| #[trigger] in_tree(fs, b.pending, tree.0, tree.1, a) implies noted(
        b.add,
        a,
    ) || on_record(mid, a) || noted(t.add, a) by {
        assert(in_tree(fs, t.pending, tree.0, tree.1, a));
        assert(!noted(Seq::<(u64, u8, u64)>::empty(), a));
        if !noted(t.add, a) {
            if frees(s.remove, a) {
                assert(outside(fs, t, root, x, files, a));
            }
            record_after_removal(m, s.remove, a);
        }
    }
}

proof fn drained_accounted(
    fs: FsV,
    generation: u64,
    s: StateV,
    root: (u64, u8),
    extent: (u64, u8),
    files: (u64, u8),
    rounds: nat,
)
    requires
        fs.sb.node_size > 0,
        grove(fs, s, root, extent, files),
        drained_low(fs, generation, s, extent, rounds),
        drained(fs, generation, s, extent, rounds) is Ok,
        in_account(fs, s, root, extent, files),
    ensures
        ({
            let (t, x) = drained(fs, generation, s, extent, rounds)->Ok_0;
            &&& in_account(fs, t, root, x, files)
            &&& stays_outside(fs, s, root, extent, t, root, x, files)
        }),
    decreases rounds,
{
    if rounds == 0 || settled(s) {
    } else {
        round_accounted(fs, generation, s, root, extent, files);
        round_keeps(fs, generation, s, root, extent, files);
        let (t, x) = round(fs, generation, s, extent)->Ok_0;
        drained_accounted(fs, generation, t, root, x, files, (rounds - 1) as nat);
        let (u, y) = drained(fs, generation, t, x, (rounds - 1) as nat)->Ok_0;
        assert forall|b: u64| outside(fs, s, root, extent, files, b) implies #[trigger] outside(
            fs,
            u,
            root,
            y,
            files,
            b,
        ) by {
            assert(outside(fs, t, root, x, files, b));
        }
    }
}

/// Operations on other items of the extent tree keep the trees accounted for.
proof fn other_items_accounted(
    fs: FsV,
    generation: u64,
    s: StateV,
    root: (u64, u8),
    extent: (u64, u8),
    files: (u64, u8),
    ops: Seq<OpV>,
)
    requires
        fs.sb.node_size > 0,
        grove(fs, s, root, extent, files),
        stays_low(
            fs,
            generation,
            EXTENT_TREE_OBJECTID,
            s,
            extent,
            ops,
        ),
        steps(fs, generation, EXTENT_TREE_OBJECTID, s, extent, ops) is Ok,
        in_account(fs, s, root, extent, files),
        forall|i: int|
            0 <= i < ops.len() ==> op_key(#[trigger] ops[i]).item_type != METADATA_ITEM_KEY,
    ensures
        ({
            let (t, x) = steps(fs, generation, EXTENT_TREE_OBJECTID, s, extent, ops)->Ok_0;
            &&& in_account(fs, t, root, x, files)
            &&& stays_outside(fs, s, root, extent, t, root, x, files)
        }),
{
    let none = Seq::<(u64, u8, u64)>::empty();
    let m = contents(fs, s, extent);
    let (t, x) = steps(fs, generation, EXTENT_TREE_OBJECTID, s, extent, ops)->Ok_0;
    extent_steps_accounted(fs, generation, s, m, none, root, extent, files, ops);
    extent_steps_keep(fs, generation, s, root, extent, files, ops);
    let n = contents(fs, t, x);
    assert forall|a: u64| (on_record(m, a) || noted(none, a)) implies #[trigger] on_record(n, a)
        || noted(none, a) by {
        if on_record(m, a) {
            record_untouched(m, ops, a);
        }
    }
    recorded_elsewhere(fs, t, m, none, n, none, root, x, files);
}

/// The key of the root item of the extent tree.
pub open spec fn extent_item() -> Key {
    Key { objectid: EXTENT_TREE_OBJECTID, item_type: ROOT_ITEM_KEY, offset: 0 }
}

/// A root tree, as a map, leads to the extent tree at `x`.
pub open spec fn leads_to_extents(m: Map<Key, Seq<u8>>, x: (u64, u8)) -> bool {
    m.contains_key(extent_item()) && (parse_root(
        EXTENT_TREE_OBJECTID,
        m[extent_item()],
    ) matches Ok(o) && o.bytenr == x.0 && o.level == x.1)
}

/// A root item of the extent tree that points elsewhere leads there.
pub proof fn extent_repointed(m: Map<Key, Seq<u8>>, generation: u64, to: (u64, u8))
    requires
        all_allowed(m, extent_repoint(generation, to)),
    ensures
        leads_to_extents(map_after_all(m, extent_repoint(generation, to)), to),
{
    let ops = extent_repoint(generation, to);
    assert(ops.drop_last() =~= Seq::<OpV>::empty());
    assert(map_after_all(m, ops.drop_last()) == m);
    assert(allowed(m, ops.last()));
    assert(map_after_all(m, ops) == map_after(m, ops[0]));
    repointed_reads_back(EXTENT_TREE_OBJECTID, m[extent_item()], generation, to.0, to.1);
}

proof fn closing_accounted(
    fs: FsV,
    generation: u64,
    s: StateV,
    root: (u64, u8),
    extent: (u64, u8),
    files: (u64, u8),
)
    requires
        fs.sb.node_size > 0,
        grove(fs, s, root, extent, files),
        closing_low(fs, generation, s, root, extent),
        closing_round(fs, generation, s, root, extent) is Ok,
        in_account(fs, s, root, extent, files),
    ensures
        ({
            let (t, r, x) = closing_round(fs, generation, s, root, extent)->Ok_0;
            &&& in_account(fs, t, r, x, files)
            &&& leads_to_extents(contents(fs, t, r), x)
        }),
{
    reveal(closing_round);
    round_accounted(fs, generation, s, root, extent, files);
    round_keeps(fs, generation, s, root, extent, files);
    let (t, x) = round(fs, generation, s, extent)->Ok_0;
    let used = used_ops(t.space);
    other_items_accounted(fs, generation, t, root, x, files, used);
    extent_steps_keep(fs, generation, t, root, x, files, used);
    let (u, y) = steps(fs, generation, EXTENT_TREE_OBJECTID, t, x, used)->Ok_0;
    let ops = extent_repoint(generation, y);
    one_stays_low(fs, generation, ROOT_TREE_OBJECTID, u, root, ops);
    root_steps_accounted(fs, generation, u, root, y, files, ops);
    root_steps_keep(fs, generation, u, root, y, files, ops);
    extent_repointed(contents(fs, u, root), generation, y);
}

/// Where the extent tree is once all closing rounds are done.
pub open spec fn closed_extents(
    fs: FsV,
    generation: u64,
    s: StateV,
    root: (u64, u8),
    extent: (u64, u8),
    rounds: nat,
) -> (u64, u8)
    decreases rounds,
{
    if rounds == 0 {
        extent
    } else {
        match closing_round(fs, generation, s, root, extent) {
            Err(_) => extent,
            Ok((t, r, x)) => if settled(t) {
                x
            } else {
                closed_extents(fs, generation, t, r, x, (rounds - 1) as nat)
            },
        }
    }
}

proof fn closed_accounted(
    fs: FsV,
    generation: u64,
    s: StateV,
    root: (u64, u8),
    extent: (u64, u8),
    files: (u64, u8),
    rounds: nat,
)
    requires
        fs.sb.node_size > 0,
        grove(fs, s, root, extent, files),
        closed_low(fs, generation, s, root, extent, rounds),
        closed(fs, generation, s, root, extent, rounds) is Ok,
        in_account(fs, s, root, extent, files),
    ensures
        ({
            let (t, r) = closed(fs, generation, s, root, extent, rounds)->Ok_0;
            let x = closed_extents(fs, generation, s, root, extent, rounds);
            &&& settled(t)
            &&& in_account(fs, t, r, x, files)
            &&& leads_to_extents(contents(fs, t, r), x)
        }),
    decreases rounds,
{
    if rounds > 0 {
        closing_accounted(fs, generation, s, root, extent, files);
        closing_keeps(fs, generation, s, root, extent, files);
        let (t, r, x) = closing_round(fs, generation, s, root, extent)->Ok_0;
        if !settled(t) {
            closed_accounted(fs, generation, t, r, x, files, (rounds - 1) as nat);
        }
    }
}

/// The root of the free-space tree, if it is to be rewritten, is neither free
/// nor part of another tree.
pub open spec fn space_root_apart(
    fs: FsV,
    s: StateV,
    root: (u64, u8),
    extent: (u64, u8),
    files: (u64, u8),
    seen: bool,
) -> bool {
    has_space_tree(fs) ==> (optional_root(fs, FREE_SPACE_TREE_OBJECTID, seen) matches Some(o)
        ==> outside(fs, s, root, extent, files, o.bytenr))
}

proof fn space_tree_accounted(
    fs: FsV,
    generation: u64,
    s: StateV,
    root: (u64, u8),
    extent: (u64, u8),
    files: (u64, u8),
    seen: bool,
)
    requires
        fs.sb.node_size > 0,
        grove(fs, s, root, extent, files),
        root.1 < 255,
        space_tree_updated(fs, generation, s, root, seen) is Ok,
        in_account(fs, s, root, extent, files),
        space_root_apart(fs, s, root, extent, files, seen),
    ensures
        ({
            let (t, r) = space_tree_updated(fs, generation, s, root, seen)->Ok_0;
            in_account(fs, t, r, extent, files)
        }),
{
    if has_space_tree(fs) {
        if let Some(old_root) = optional_root(fs, FREE_SPACE_TREE_OBJECTID, seen) {
            reveal(space_tree_rewritten);
            let gone = old_root.bytenr;
            let (target, rest) = alloc_meta(s.space, fs.sb.node_size, 0)->Some_0;
            let space = free_block(rest, gone, fs.sb.node_size);
            let node = node_at(fs, s.pending, gone)->Ok_0;
            let raw = emit_leaf(
                space_leaf(fs, generation, target, node.flags, node.chunk_tree_uuid, space),
                fs.sb.node_size,
            )->Ok_0;
            let t = space_leaf_placed(s, target, raw, space, gone);
            leaf_placed_keeps(fs, s, root, extent, files, target, rest, raw, gone);
            leaf_placed_accounted(fs, s, t, root, extent, files, target, gone);
            let ops = space_repoint(generation, target);
            one_stays_low(fs, generation, ROOT_TREE_OBJECTID, t, root, ops);
            root_steps_accounted(fs, generation, t, root, extent, files, ops);
        }
    }
}

proof fn leaf_placed_accounted(
    fs: FsV,
    s: StateV,
    t: StateV,
    root: (u64, u8),
    extent: (u64, u8),
    files: (u64, u8),
    target: u64,
    gone: u64,
)
    requires
        in_account(fs, s, root, extent, files),
        outside(fs, s, root, extent, files, gone),
        t.add == s.add.push((target, 0u8, FREE_SPACE_TREE_OBJECTID)),
        t.remove == s.remove.push((gone, 0u8)),
        contents(fs, t, extent) == contents(fs, s, extent),
        forall|a: int| #[trigger] offered(t.space, a) <= offered(s.space, a),
        forall|a: u64| #[trigger]
            in_tree(fs, t.pending, root.0, root.1, a) == in_tree(
                fs,
                s.pending,
                root.0,
                root.1,
                a,
            ),
        forall|a: u64| #[trigger]
            in_tree(fs, t.pending, extent.0, extent.1, a) == in_tree(
                fs,
                s.pending,
                extent.0,
                extent.1,
                a,
            ),
        forall|a: u64| #[trigger]
            in_tree(fs, t.pending, files.0, files.1, a) == in_tree(
                fs,
                s.pending,
                files.0,
                files.1,
                a,
            ),
    ensures
        in_account(fs, t, root, extent, files),
{
    assert forall|a: u64| noted(s.add, a) implies #[trigger] noted(t.add, a) by {
        let i = choose|i: int| 0 <= i < s.add.len() && (#[trigger] s.add[i]).0 == a;
        assert(t.add[i].0 == a);
    }
    assert forall|b: u64| #[trigger] frees(t.remove, b) implies outside(
        fs,
        t,
        root,
        extent,
        files,
        b,
    ) by {
        let i = choose|i: int| 0 <= i < t.remove.len() && (#[trigger] t.remove[i]).0 == b;
        if i < s.remove.len() {
            assert(s.remove[i].0 == b);
            assert(frees(s.remove, b));
        }
        assert(outside(fs, s, root, extent, files, b));
        assert(offered(t.space, b as int) <= offered(s.space, b as int));
    }
}

/// All blocks of a tree are recorded.
pub open spec fn all_recorded(fs: FsV, s: StateV, m: Map<Key, Seq<u8>>, x: (u64, u8)) -> bool {
    forall|a: u64| #[trigger] in_tree(fs, s.pending, x.0, x.1, a) ==> on_record(m, a)
}

/// A finished transaction leads to an extent tree that records every block of
/// the root tree, of the extent tree itself and of the tree of the files.
pub open spec fn all_on_record(fs: FsV, t: TxnV, files: (u64, u8)) -> bool {
    exists|x: (u64, u8)| #[trigger]
        leads_to_extents(contents(fs, state_of(t), t.root), x) && {
            let m = contents(fs, state_of(t), x);
            &&& all_recorded(fs, state_of(t), m, t.root)
            &&& all_recorded(fs, state_of(t), m, x)
            &&& all_recorded(fs, state_of(t), m, files)
        }
}

/// Finishing a transaction whose trees are accounted for leads to an extent
/// tree that records all of their blocks.
pub proof fn finish_records_all(fs: FsV, c: ChangesV, s: StateV, fst: bool, extent: (u64, u8))
    requires
        fs.sb.node_size > 0,
        extent_start(fs, c) == Ok::<(u64, u8), Fault>(extent),
        grove(
            fs,
            s,
            (fs.sb.root, fs.sb.root_level),
            extent,
            (c.fs_tree.bytenr, c.fs_tree.level),
        ),
        finish_low(fs, c, s, fst),
        finalized(fs, c, s, fst) is Ok,
        in_account(
            fs,
            s,
            (fs.sb.root, fs.sb.root_level),
            extent,
            (c.fs_tree.bytenr, c.fs_tree.level),
        ),
        space_root_apart(
            fs,
            s,
            (fs.sb.root, fs.sb.root_level),
            extent,
            (c.fs_tree.bytenr, c.fs_tree.level),
            fst,
        ),
    ensures
        all_on_record(
            fs,
            finalized(fs, c, s, fst)->Ok_0,
            (c.fs_tree.bytenr, c.fs_tree.level),
        ),
{
    reveal(finalized);
    let root = (fs.sb.root, fs.sb.root_level);
    let files = (c.fs_tree.bytenr, c.fs_tree.level);
    let g = c.generation;
    let rounds = MAX_CONVERGENCE_ROUNDS as nat;
    let ro = root_ops(fs, c);
    let eo = extent_ops(c);
    root_steps_keep(fs, g, s, root, extent, files, ro);
    root_steps_accounted(fs, g, s, root, extent, files, ro);
    let (s1, r1) = steps(fs, g, ROOT_TREE_OBJECTID, s, root, ro)->Ok_0;
    assert forall|i: int| 0 <= i < eo.len() implies op_key(#[trigger] eo[i]).item_type
        != METADATA_ITEM_KEY by {}
    extent_steps_keep(fs, g, s1, r1, extent, files, eo);
    other_items_accounted(fs, g, s1, r1, extent, files, eo);
    let (s2, x2) = steps(fs, g, EXTENT_TREE_OBJECTID, s1, extent, eo)->Ok_0;
    drained_keeps(fs, g, s2, r1, x2, files, rounds);
    drained_accounted(fs, g, s2, r1, x2, files, rounds);
    let (s3, x3) = drained(fs, g, s2, x2, rounds)->Ok_0;
    assert(space_root_apart(fs, s3, r1, x3, files, fst)) by {
        if let Some(o) = optional_root(fs, FREE_SPACE_TREE_OBJECTID, fst) {
            if has_space_tree(fs) {
                let b = o.bytenr;
                assert(outside(fs, s, root, extent, files, b));
                assert(outside(fs, s1, r1, extent, files, b));
                assert(outside(fs, s2, r1, x2, files, b));
                assert(outside(fs, s3, r1, x3, files, b));
            }
        }
    }
    space_tree_keeps(fs, g, s3, r1, x3, files, fst);
    space_tree_accounted(fs, g, s3, r1, x3, files, fst);
    let (s4, r4) = space_tree_updated(fs, g, s3, r1, fst)->Ok_0;
    closed_accounted(fs, g, s4, r4, x3, files, rounds);
    let (s5, r5) = closed(fs, g, s4, r4, x3, rounds)->Ok_0;
    let x5 = closed_extents(fs, g, s4, r4, x3, rounds);
    let t = finalized(fs, c, s, fst)->Ok_0;
    let e = state_of(t);
    assert(e.pending == s5.pending && e.space == s5.space);
    let m = contents(fs, s5, x5);
    assert(contents(fs, e, x5) == m);
    assert(contents(fs, e, t.root) == contents(fs, s5, r5));
    settled_means_recorded(fs, s5, e, m, r5);
    settled_means_recorded(fs, s5, e, m, x5);
    settled_means_recorded(fs, s5, e, m, files);
    assert(leads_to_extents(contents(fs, e, t.root), x5));
}

proof fn settled_means_recorded(
    fs: FsV,
    s: StateV,
    e: StateV,
    m: Map<Key, Seq<u8>>,
    x: (u64, u8),
)
    requires
        settled(s),
        e.pending == s.pending,
        covered(fs, s, m, Seq::empty(), x),
    ensures
        all_recorded(fs, e, m, x),
{
    assert forall|a: u64| #[trigger] in_tree(fs, e.pending, x.0, x.1, a) implies on_record(
        m,
        a,
    ) by {
        assert(in_tree(fs, s.pending, x.0, x.1, a));
        assert(!noted(s.add, a));
        assert(!noted(Seq::<(u64, u8, u64)>::empty(), a));
    }
}

/// The extent tree of a volume records every block of its root tree, of itself
/// and of the tree of the files.
pub open spec fn volume_on_record(fs: FsV, space: Seq<BgV>) -> bool {
    let s = fresh_state(space);
    let m = contents(fs, s, extent_root(fs));
    &&& all_recorded(fs, s, m, top_root(fs))
    &&& all_recorded(fs, s, m, extent_root(fs))
    &&& all_recorded(fs, s, m, files_root(fs))
}

/// A change of a fourth tree keeps the other three accounted for.
proof fn aside_accounted(
    fs: FsV,
    s: StateV,
    t: StateV,
    m: Map<Key, Seq<u8>>,
    sums: (u64, u8),
    at: (u64, u8),
    x: (u64, u8),
    y: (u64, u8),
    z: (u64, u8),
)
    requires
        confined(fs, s, t, sums, at),
        notes(fs, s, t, sums, at),
        orderly(fs, s, x),
        orderly(fs, s, y),
        orderly(fs, s, z),
        beside(fs, s, sums, x),
        beside(fs, s, sums, y),
        beside(fs, s, sums, z),
        accounted(fs, s, m, Seq::empty(), x, y, z),
    ensures
        accounted(fs, t, m, Seq::empty(), x, y, z),
        forall|b: u64| outside(fs, s, x, y, z, b) ==> #[trigger] outside(fs, t, x, y, z, b),
{
    let none = Seq::<(u64, u8, u64)>::empty();
    blocks_left(fs, s, t, sums, at, x);
    blocks_left(fs, s, t, sums, at, y);
    blocks_left(fs, s, t, sums, at, z);
    still_covered(fs, s, t, m, none, sums, at, x);
    still_covered(fs, s, t, m, none, sums, at, y);
    still_covered(fs, s, t, m, none, sums, at, z);
    assert forall|b: u64|
        in_tree(fs, t.pending, x.0, x.1, b) == in_tree(fs, s.pending, x.0, x.1, b) && in_tree(
            fs,
            t.pending,
            y.0,
            y.1,
            b,
        ) == in_tree(fs, s.pending, y.0, y.1, b) && in_tree(fs, t.pending, z.0, z.1, b) == in_tree(
            fs,
            s.pending,
            z.0,
            z.1,
            b,
        ) && #[trigger] offered(t.space, b as int) <= offered(s.space, b as int) by {}
    assert forall|b: u64| outside(fs, s, x, y, z, b) implies #[trigger] outside(
        fs,
        t,
        x,
        y,
        z,
        b,
    ) by {
        assert(offered(t.space, b as int) <= offered(s.space, b as int));
    }
    assert forall|b: u64| #[trigger] frees(t.remove, b) implies outside(fs, t, x, y, z, b) by {
        assert(offered(t.space, b as int) <= offered(s.space, b as int));
        if frees(s.remove, b) {
            assert(outside(fs, s, x, y, z, b));
        } else if in_tree(fs, s.pending, sums.0, sums.1, b) {
            assert(!in_tree(fs, s.pending, x.0, x.1, b));
            assert(!in_tree(fs, s.pending, y.0, y.1, b));
            assert(!in_tree(fs, s.pending, z.0, z.1, b));
        }
    }
}

/// Operations on the checksum tree keep the other trees accounted for.
proof fn sums_steps_accounted(
    fs: FsV,
    generation: u64,
    s: StateV,
    sums: (u64, u8),
    files: (u64, u8),
    ops: Seq<OpV>,
)
    requires
        fs.sb.node_size > 0,
        grove(fs, s, top_root(fs), extent_root(fs), files),
        sums_aside(fs, s, sums, files),
        stays_low(fs, generation, CSUM_TREE_OBJECTID, s, sums, ops),
        steps(fs, generation, CSUM_TREE_OBJECTID, s, sums, ops) is Ok,
        in_account(fs, s, top_root(fs), extent_root(fs), files),
    ensures
        ({
            let t = steps(fs, generation, CSUM_TREE_OBJECTID, s, sums, ops)->Ok_0.0;
            &&& in_account(fs, t, top_root(fs), extent_root(fs), files)
            &&& forall|b: u64|
                outside(fs, s, top_root(fs), extent_root(fs), files, b) ==> #[trigger] outside(
                    fs,
                    t,
                    top_root(fs),
                    extent_root(fs),
                    files,
                    b,
                )
        }),
{
    let (t, at) = steps(fs, generation, CSUM_TREE_OBJECTID, s, sums, ops)->Ok_0;
    let root = top_root(fs);
    let extent = extent_root(fs);
    steps_on_map(fs, generation, CSUM_TREE_OBJECTID, s, sums, ops);
    steps_note(fs, generation, CSUM_TREE_OBJECTID, s, sums, ops);
    beside_change(fs, s, t, sums, at, root, extent);
    aside_accounted(fs, s, t, contents(fs, s, extent), sums, at, root, extent, files);
}

/// Changing the files of a volume that is on record keeps the trees accounted
/// for.
proof fn files_steps_accounted(
    fs: FsV,
    generation: u64,
    space: Seq<BgV>,
    ops: Seq<OpV>,
)
    requires
        fit_to_change(fs, space),
        stays_low(fs, generation, FS_TREE_OBJECTID, fresh_state(space), files_root(fs), ops),
        steps(
            fs,
            generation,
            FS_TREE_OBJECTID,
            fresh_state(space),
            files_root(fs),
            ops,
        ) is Ok,
        volume_on_record(fs, space),
    ensures
        ({
            let (s, r) = steps(
                fs,
                generation,
                FS_TREE_OBJECTID,
                fresh_state(space),
                files_root(fs),
                ops,
            )->Ok_0;
            let root = top_root(fs);
            let extent = extent_root(fs);
            &&& in_account(fs, s, root, extent, r)
            &&& forall|b: u64|
                outside(fs, fresh_state(space), root, extent, files_root(fs), b)
                    ==> #[trigger] outside(fs, s, root, extent, r, b)
        }),
{
    let s0 = fresh_state(space);
    let root = top_root(fs);
    let extent = extent_root(fs);
    let files = files_root(fs);
    let m = contents(fs, s0, extent);
    let none = Seq::<(u64, u8, u64)>::empty();
    let (s, r) = steps(fs, generation, FS_TREE_OBJECTID, s0, files, ops)->Ok_0;
    steps_on_map(fs, generation, FS_TREE_OBJECTID, s0, files, ops);
    steps_note(fs, generation, FS_TREE_OBJECTID, s0, files, ops);
    assert(accounted(fs, s0, m, none, files, root, extent)) by {
        assert forall|b: u64| !#[trigger] frees(s0.remove, b) by {}
    }
    beside_other_way(fs, s0, root, files);
    beside_other_way(fs, s0, extent, files);
    change_accounted(fs, s0, s, m, none, files, r, root, extent);
    beside_change(fs, s0, s, files, r, root, extent);
    assert(contents(fs, s, extent) == m);
    assert(in_account(fs, s, root, extent, r)) by {
        assert forall|b: u64| #[trigger] frees(s.remove, b) implies outside(
            fs,
            s,
            root,
            extent,
            r,
            b,
        ) by {
            assert(outside(fs, s, r, root, extent, b));
        }
    }
    assert forall|b: u64| outside(fs, s0, root, extent, files, b) implies #[trigger] outside(
        fs,
        s,
        root,
        extent,
        r,
        b,
    ) by {
        assert(outside(fs, s0, files, root, extent, b));
        assert(outside(fs, s, r, root, extent, b));
    }
}

/// The root of the free-space tree stays apart where nothing outside comes in.
proof fn still_apart(
    fs: FsV,
    s: StateV,
    t: StateV,
    root: (u64, u8),
    extent: (u64, u8),
    files: (u64, u8),
    at: (u64, u8),
    seen: bool,
)
    requires
        space_root_apart(fs, s, root, extent, files, seen),
        forall|b: u64|
            outside(fs, s, root, extent, files, b) ==> #[trigger] outside(
                fs,
                t,
                root,
                extent,
                at,
                b,
            ),
    ensures
        space_root_apart(fs, t, root, extent, at, seen),
{
    if let Some(o) = optional_root(fs, FREE_SPACE_TREE_OBJECTID, seen) {
        if has_space_tree(fs) {
            assert(outside(fs, s, root, extent, files, o.bytenr));
            assert(outside(fs, t, root, extent, at, o.bytenr));
        }
    }
}

/// A volume whose extent tree records every block of the trees, and whose
/// free-space tree begins at none of them.
pub open spec fn fit_to_record(fs: FsV, space: Seq<BgV>, fst: bool) -> bool {
    &&& volume_on_record(fs, space)
    &&& space_root_apart(
        fs,
        fresh_state(space),
        top_root(fs),
        extent_root(fs),
        files_root(fs),
        fst,
    )
}

/// A transaction that changes files keeps the record: if the extent tree of the
/// volume records every block of the trees, so does the one that the
/// transaction leads to.
pub proof fn change_keeps_record(
    fs: FsV,
    generation: u64,
    space: Seq<BgV>,
    ops: Seq<OpV>,
    seen: Lookups,
)
    requires
        fit_to_change(fs, space),
        all_low(fs, generation, space, ops, seen),
        files_changed(fs, generation, space, ops, seen) is Ok,
        fit_to_record(fs, space, seen.fst),
    ensures
        ({
            let t = files_changed(fs, generation, space, ops, seen)->Ok_0;
            all_on_record(fs, t, files_of(t))
        }),
{
    let s0 = fresh_state(space);
    let files = files_root(fs);
    let extent = extent_root(fs);
    let (s, r) = steps(fs, generation, FS_TREE_OBJECTID, s0, files, ops)->Ok_0;
    steps_on_map(fs, generation, FS_TREE_OBJECTID, s0, files, ops);
    files_change_keeps(fs, s0, s, files, r, None);
    files_steps_accounted(fs, generation, space, ops);
    still_apart(fs, s0, s, top_root(fs), extent, files, r, seen.fst);
    let c = only_files(fs, generation, r);
    finish_records_all(fs, c, s, seen.fst, extent);
    finish_keeps_files(fs, c, s, seen.fst, extent);
}

/// A transaction that changes files and drops data keeps the record.
pub proof fn loss_keeps_record(
    fs: FsV,
    generation: u64,
    space: Seq<BgV>,
    ops: Seq<OpV>,
    spans: Seq<Span>,
    seen: Lookups,
)
    requires
        fit_for_data(fs, space, seen.csum),
        stays_low(fs, generation, FS_TREE_OBJECTID, fresh_state(space), files_root(fs), ops),
        drop_low(fs, generation, space, ops, spans, seen),
        spans_lost(fs, generation, space, ops, spans, seen) is Ok,
        fit_to_record(fs, space, seen.fst),
    ensures
        ({
            let t = spans_lost(fs, generation, space, ops, spans, seen)->Ok_0;
            all_on_record(fs, t, files_of(t))
        }),
{
    let s0 = fresh_state(space);
    let files = files_root(fs);
    let root = top_root(fs);
    let extent = extent_root(fs);
    let sums = sums_root(fs, seen.csum);
    let (s, r) = steps(fs, generation, FS_TREE_OBJECTID, s0, files, ops)->Ok_0;
    steps_on_map(fs, generation, FS_TREE_OBJECTID, s0, files, ops);
    files_change_keeps(fs, s0, s, files, r, sums);
    files_steps_accounted(fs, generation, space, ops);
    let u = StateV { space: spans_freed(s.space, spans)->Ok_0, ..s };
    assert forall|a: int| #[trigger] offered(u.space, a) == offered(s.space, a) by {
        freed_spans_offer_nothing(s.space, spans, a);
    }
    offers_framed(fs, s, u, r, sums);
    freed_accounted(fs, s, u, root, extent, r);
    let (t, c) = data_dropped(fs, generation, s, spans, seen.csum)->Ok_0;
    assert(csums_dropped(fs, generation, u, spans, seen.csum) == Ok::<
        (StateV, Option<(u64, u8)>),
        Fault,
    >((t, c)));
    if c is Some {
        let x = sums->Some_0;
        let plan = trim_plan(fs, x.0, span_pairs(spans));
        sums_steps_keep(fs, generation, u, x, r, plan);
        sums_steps_accounted(fs, generation, u, x, r, plan);
    } else {
        assert(t == u);
    }
    assert forall|b: u64| outside(fs, s0, root, extent, files, b) implies #[trigger] outside(
        fs,
        t,
        root,
        extent,
        r,
        b,
    ) by {
        assert(outside(fs, s, root, extent, r, b));
        assert(outside(fs, u, root, extent, r, b));
    }
    still_apart(fs, s0, t, root, extent, files, r, seen.fst);
    let d = drop_changes(fs, generation, r, c, spans);
    assert(extent_start(fs, d) == Ok::<(u64, u8), Fault>(extent));
    finish_records_all(fs, d, t, seen.fst, extent);
    finish_keeps_files(fs, d, t, seen.fst, extent);
}

proof fn freed_accounted(
    fs: FsV,
    s: StateV,
    u: StateV,
    root: (u64, u8),
    extent: (u64, u8),
    files: (u64, u8),
)
    requires
        in_account(fs, s, root, extent, files),
        u == (StateV { space: u.space, ..s }),
        forall|a: int| #[trigger] offered(u.space, a) == offered(s.space, a),
    ensures
        in_account(fs, u, root, extent, files),
        forall|b: u64|
            outside(fs, s, root, extent, files, b) ==> #[trigger] outside(
                fs,
                u,
                root,
                extent,
                files,
                b,
            ),
{
    assert(contents(fs, u, extent) == contents(fs, s, extent));
    assert forall|b: u64| outside(fs, s, root, extent, files, b) implies #[trigger] outside(
        fs,
        u,
        root,
        extent,
        files,
        b,
    ) by {
        assert(offered(u.space, b as int) == offered(s.space, b as int));
    }
    assert forall|b: u64| #[trigger] frees(u.remove, b) implies outside(
        fs,
        u,
        root,
        extent,
        files,
        b,
    ) by {
        assert(frees(s.remove, b));
        assert(outside(fs, s, root, extent, files, b));
    }
}

/// A transaction that writes data for a file keeps the record.
pub proof fn gain_keeps_record(
    fs: FsV,
    generation: u64,
    space: Seq<BgV>,
    ops: Seq<OpV>,
    ino: u64,
    at: u64,
    content: Seq<u8>,
    seen: Lookups,
)
    requires
        fit_for_data(fs, space, seen.csum),
        write_low(fs, generation, space, ops, ino, at, content, seen),
        data_written(fs, generation, space, ops, ino, at, content, seen) is Ok,
        fit_to_record(fs, space, seen.fst),
    ensures
        ({
            let t = data_written(fs, generation, space, ops, ino, at, content, seen)->Ok_0;
            all_on_record(fs, t, files_of(t))
        }),
{
    let s0 = fresh_state(space);
    let files = files_root(fs);
    let root = top_root(fs);
    let extent = extent_root(fs);
    let sums = sums_root(fs, seen.csum);
    let len = disk_len(content.len() as int, fs.sb.sector_size);
    let all = with_extent(ops, generation, ino, at, len);
    let (s, r) = steps(fs, generation, FS_TREE_OBJECTID, s0, files, all)->Ok_0;
    steps_on_map(fs, generation, FS_TREE_OBJECTID, s0, files, all);
    files_change_keeps(fs, s0, s, files, r, sums);
    files_steps_accounted(fs, generation, space, all);
    let (t, c) = csums_added(fs, generation, s, at, content, seen.csum)->Ok_0;
    if c is Some {
        let items = csum_tiles(
            fs.sb.csum_type,
            fs.sb.node_size,
            fs.sb.sector_size,
            at,
            len,
            content,
        )->Ok_0;
        sums_steps_keep(fs, generation, s, sums->Some_0, r, csum_ops(items));
        sums_steps_accounted(fs, generation, s, sums->Some_0, r, csum_ops(items));
    } else {
        assert(t == s);
    }
    assert forall|b: u64| outside(fs, s0, root, extent, files, b) implies #[trigger] outside(
        fs,
        t,
        root,
        extent,
        r,
        b,
    ) by {
        assert(outside(fs, s, root, extent, r, b));
    }
    still_apart(fs, s0, t, root, extent, files, r, seen.fst);
    let d = data_changes(fs, generation, r, c, ino, at, content);
    assert(extent_start(fs, d) == Ok::<(u64, u8), Fault>(extent));
    finish_records_all(fs, d, t, seen.fst, extent);
    finish_keeps_files(fs, d, t, seen.fst, extent);
}

} // verus!
