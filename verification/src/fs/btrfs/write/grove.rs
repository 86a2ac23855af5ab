//! Finishing a transaction changes the root tree and the extent tree, and leaves
//! the files alone.

use vstd::prelude::*;

use crate::error::Fault;
use crate::fs::btrfs::tree::{
    Key, EXTENT_TREE_OBJECTID, FREE_SPACE_TREE_OBJECTID, ROOT_TREE_OBJECTID,
};
use crate::fs::btrfs::volume::{node_at, FsV};
use crate::fs::btrfs::roots::optional_root;
use crate::fs::btrfs::write::booking::keys_end;
use crate::fs::btrfs::write::contents::{holds, in_tree, tree_unchanged};
use crate::fs::btrfs::write::converge::{
    adding_ops, closed, closing_round, drained, extent_ops, extent_start, finalized, has_space_tree,
    removal_ops, repoint, root_ops, round, settled, space_leaf, space_tree_rewritten,
    space_tree_updated, used_ops, ChangesV, MAX_CONVERGENCE_ROUNDS,
};
use crate::fs::btrfs::write::handout::{
    handed_out_once, lies_in, metadata_is_handed_out, offered, tidy,
};
use crate::fs::btrfs::write::node::emit_leaf;
use crate::fs::btrfs::write::space::{alloc_meta, free_block, BgV};
use crate::fs::btrfs::write::tree_map::{
    all_allowed, confined, contents, contents_hold, freeing_offers_nothing, left_alone, map_after_all, node_same, orderly,
    same_at, stays_low, steps_on_map,
};
use crate::fs::btrfs::write::txn::TxnV;
use crate::fs::btrfs::write::workspace::{steps, OpV, StateV};

verus! {

/// No block is part of both trees.
pub open spec fn beside(fs: FsV, s: StateV, x: (u64, u8), y: (u64, u8)) -> bool {
    forall|a: u64|
        !(#[trigger] in_tree(fs, s.pending, x.0, x.1, a) && in_tree(fs, s.pending, y.0, y.1, a))
}

/// The root tree, the extent tree and the tree of the files, each in order and
/// none with a block of another.
pub open spec fn grove(
    fs: FsV,
    s: StateV,
    root: (u64, u8),
    extent: (u64, u8),
    files: (u64, u8),
) -> bool {
    &&& orderly(fs, s, root)
    &&& orderly(fs, s, extent)
    &&& orderly(fs, s, files)
    &&& beside(fs, s, root, extent)
    &&& beside(fs, s, root, files)
    &&& beside(fs, s, extent, files)
}

/// Two root trees list the tree of the files alike, and every other tree but the
/// extent tree and the free-space tree.
pub open spec fn lists_files_alike(m: Map<Key, Seq<u8>>, n: Map<Key, Seq<u8>>) -> bool {
    forall|k: Key|
        k.objectid != EXTENT_TREE_OBJECTID && k.objectid != FREE_SPACE_TREE_OBJECTID ==> (#[trigger] n.contains_key(k) == m.contains_key(k) && (
        m.contains_key(k) ==> n[k] == m[k]))
}

/// The blocks and the free space are all that counts.
proof fn grove_framed(
    fs: FsV,
    s: StateV,
    t: StateV,
    root: (u64, u8),
    extent: (u64, u8),
    files: (u64, u8),
)
    requires
        grove(fs, s, root, extent, files),
        t.pending == s.pending,
        t.space == s.space,
    ensures
        grove(fs, t, root, extent, files),
        contents(fs, t, files) == contents(fs, s, files),
        contents(fs, t, root) == contents(fs, s, root),
{
}

/// Two trees beside the one that changes stay as they are and beside each
/// other and beside the changed one.
pub proof fn beside_change(
    fs: FsV,
    s: StateV,
    t: StateV,
    root: (u64, u8),
    at: (u64, u8),
    x: (u64, u8),
    y: (u64, u8),
)
    requires
        confined(fs, s, t, root, at),
        orderly(fs, s, x),
        orderly(fs, s, y),
        orderly(fs, t, at),
        beside(fs, s, root, x),
        beside(fs, s, root, y),
        beside(fs, s, x, y),
    ensures
        orderly(fs, t, x),
        orderly(fs, t, y),
        beside(fs, t, at, x),
        beside(fs, t, at, y),
        beside(fs, t, x, y),
        contents(fs, t, x) == contents(fs, s, x),
        contents(fs, t, y) == contents(fs, s, y),
{
    left_alone(fs, s, t, root, at, x);
    left_alone(fs, s, t, root, at, y);
    blocks_left(fs, s, t, root, at, x);
    blocks_left(fs, s, t, root, at, y);
    assert forall|a: u64| !(#[trigger] in_tree(fs, t.pending, at.0, at.1, a) && in_tree(
        fs,
        t.pending,
        x.0,
        x.1,
        a,
    )) by {
        if in_tree(fs, t.pending, at.0, at.1, a) && in_tree(fs, t.pending, x.0, x.1, a) {
            assert(in_tree(fs, s.pending, x.0, x.1, a));
            assert(offered(s.space, a as int) == 0);
        }
    }
    assert forall|a: u64| !(#[trigger] in_tree(fs, t.pending, at.0, at.1, a) && in_tree(
        fs,
        t.pending,
        y.0,
        y.1,
        a,
    )) by {
        if in_tree(fs, t.pending, at.0, at.1, a) && in_tree(fs, t.pending, y.0, y.1, a) {
            assert(in_tree(fs, s.pending, y.0, y.1, a));
            assert(offered(s.space, a as int) == 0);
        }
    }
    assert forall|a: u64| !(#[trigger] in_tree(fs, t.pending, x.0, x.1, a) && in_tree(
        fs,
        t.pending,
        y.0,
        y.1,
        a,
    )) by {
        if in_tree(fs, t.pending, x.0, x.1, a) && in_tree(fs, t.pending, y.0, y.1, a) {
            assert(in_tree(fs, s.pending, x.0, x.1, a));
            assert(in_tree(fs, s.pending, y.0, y.1, a));
        }
    }
}

/// The blocks of a tree beside the one that changes are the same.
pub proof fn blocks_left(
    fs: FsV,
    s: StateV,
    t: StateV,
    root: (u64, u8),
    at: (u64, u8),
    x: (u64, u8),
)
    requires
        confined(fs, s, t, root, at),
        orderly(fs, s, x),
        beside(fs, s, root, x),
    ensures
        forall|a: u64| #[trigger]
            in_tree(fs, t.pending, x.0, x.1, a) == in_tree(fs, s.pending, x.0, x.1, a),
{
    assert forall|a: u64| #[trigger] in_tree(fs, s.pending, x.0, x.1, a) implies node_at(
        fs,
        t.pending,
        a,
    ) == node_at(fs, s.pending, a) by {
        assert(!in_tree(fs, s.pending, root.0, root.1, a));
    }
    tree_unchanged(fs, s.pending, t.pending, x.0, x.1, 0, keys_end());
}

/// Operations on the root tree keep the grove and the files.
pub proof fn root_steps_keep(
    fs: FsV,
    generation: u64,
    s: StateV,
    root: (u64, u8),
    extent: (u64, u8),
    files: (u64, u8),
    ops: Seq<OpV>,
)
    requires
        fs.sb.node_size > 0,
        grove(fs, s, root, extent, files),
        stays_low(fs, generation, ROOT_TREE_OBJECTID, s, root, ops),
        steps(fs, generation, ROOT_TREE_OBJECTID, s, root, ops) is Ok,
    ensures
        ({
            let (t, r) = steps(fs, generation, ROOT_TREE_OBJECTID, s, root, ops)->Ok_0;
            &&& grove(fs, t, r, extent, files)
            &&& contents(fs, t, files) == contents(fs, s, files)
            &&& contents(fs, t, extent) == contents(fs, s, extent)
            &&& all_allowed(contents(fs, s, root), ops)
            &&& contents(fs, t, r) == map_after_all(contents(fs, s, root), ops)
        }),
{
    let (t, r) = steps(fs, generation, ROOT_TREE_OBJECTID, s, root, ops)->Ok_0;
    steps_on_map(fs, generation, ROOT_TREE_OBJECTID, s, root, ops);
    beside_change(fs, s, t, root, r, extent, files);
}

/// Operations on the extent tree keep the grove and the files.
pub proof fn extent_steps_keep(
    fs: FsV,
    generation: u64,
    s: StateV,
    root: (u64, u8),
    extent: (u64, u8),
    files: (u64, u8),
    ops: Seq<OpV>,
)
    requires
        fs.sb.node_size > 0,
        grove(fs, s, root, extent, files),
        stays_low(fs, generation, EXTENT_TREE_OBJECTID, s, extent, ops),
        steps(fs, generation, EXTENT_TREE_OBJECTID, s, extent, ops) is Ok,
    ensures
        ({
            let (t, x) = steps(fs, generation, EXTENT_TREE_OBJECTID, s, extent, ops)->Ok_0;
            &&& grove(fs, t, root, x, files)
            &&& contents(fs, t, files) == contents(fs, s, files)
            &&& all_allowed(contents(fs, s, extent), ops)
            &&& contents(fs, t, x) == map_after_all(contents(fs, s, extent), ops)
            &&& contents(fs, t, root) == contents(fs, s, root)
        }),
{
    let (t, x) = steps(fs, generation, EXTENT_TREE_OBJECTID, s, extent, ops)->Ok_0;
    steps_on_map(fs, generation, EXTENT_TREE_OBJECTID, s, extent, ops);
    assert(beside(fs, s, extent, root)) by {
        assert forall|a: u64| !(#[trigger] in_tree(fs, s.pending, extent.0, extent.1, a)
            && in_tree(fs, s.pending, root.0, root.1, a)) by {
            if in_tree(fs, s.pending, root.0, root.1, a) {
                assert(!in_tree(fs, s.pending, extent.0, extent.1, a));
            }
        }
    }
    beside_change(fs, s, t, extent, x, root, files);
    assert(beside(fs, t, root, x)) by {
        assert forall|a: u64| !(#[trigger] in_tree(fs, t.pending, root.0, root.1, a) && in_tree(
            fs,
            t.pending,
            x.0,
            x.1,
            a,
        )) by {
            if in_tree(fs, t.pending, x.0, x.1, a) {
                assert(!in_tree(fs, t.pending, root.0, root.1, a));
            }
        }
    }
}

/// The extent tree stays within reach for a round.
pub open spec fn round_low(fs: FsV, generation: u64, s: StateV, extent: (u64, u8)) -> bool {
    let a = StateV { remove: Seq::empty(), ..s };
    &&& stays_low(fs, generation, EXTENT_TREE_OBJECTID, a, extent, removal_ops(s.remove))
    &&& steps(
        fs,
        generation,
        EXTENT_TREE_OBJECTID,
        a,
        extent,
        removal_ops(s.remove),
    ) matches Ok((t, x)) ==> stays_low(
        fs,
        generation,
        EXTENT_TREE_OBJECTID,
        StateV { add: Seq::empty(), ..t },
        x,
        adding_ops(t.add, generation),
    )
}

/// A round keeps the grove and the files.
pub proof fn round_keeps(
    fs: FsV,
    generation: u64,
    s: StateV,
    root: (u64, u8),
    extent: (u64, u8),
    files: (u64, u8),
)
    requires
        fs.sb.node_size > 0,
        grove(fs, s, root, extent, files),
        round_low(fs, generation, s, extent),
        round(fs, generation, s, extent) is Ok,
    ensures
        ({
            let (t, x) = round(fs, generation, s, extent)->Ok_0;
            &&& grove(fs, t, root, x, files)
            &&& contents(fs, t, files) == contents(fs, s, files)
            &&& contents(fs, t, root) == contents(fs, s, root)
        }),
{
    reveal(round);
    let a = StateV { remove: Seq::empty(), ..s };
    grove_framed(fs, s, a, root, extent, files);
    extent_steps_keep(fs, generation, a, root, extent, files, removal_ops(s.remove));
    let (t, x) = steps(
        fs,
        generation,
        EXTENT_TREE_OBJECTID,
        a,
        extent,
        removal_ops(s.remove),
    )->Ok_0;
    let b = StateV { add: Seq::empty(), ..t };
    grove_framed(fs, t, b, root, x, files);
    extent_steps_keep(fs, generation, b, root, x, files, adding_ops(t.add, generation));
}

/// The extent tree stays within reach for all rounds.
pub open spec fn drained_low(fs: FsV, generation: u64, s: StateV, extent: (u64, u8), rounds: nat) -> bool
    decreases rounds,
{
    rounds == 0 || settled(s) || (round_low(fs, generation, s, extent) && (round(
        fs,
        generation,
        s,
        extent,
    ) matches Ok((t, x)) ==> drained_low(fs, generation, t, x, (rounds - 1) as nat)))
}

/// All rounds keep the grove and the files.
pub proof fn drained_keeps(
    fs: FsV,
    generation: u64,
    s: StateV,
    root: (u64, u8),
    extent: (u64, u8),
    files: (u64, u8),
    rounds: nat,
)
    requires
        fs.sb.node_size > 0,
        grove(fs, s, root, extent, files),
        drained_low(fs, generation, s, extent, rounds),
        drained(fs, generation, s, extent, rounds) is Ok,
    ensures
        ({
            let (t, x) = drained(fs, generation, s, extent, rounds)->Ok_0;
            &&& grove(fs, t, root, x, files)
            &&& contents(fs, t, files) == contents(fs, s, files)
            &&& contents(fs, t, root) == contents(fs, s, root)
        }),
    decreases rounds,
{
    if rounds == 0 || settled(s) {
    } else {
        round_keeps(fs, generation, s, root, extent, files);
        let (t, x) = round(fs, generation, s, extent)->Ok_0;
        drained_keeps(fs, generation, t, root, x, files, (rounds - 1) as nat);
    }
}

/// The state once the free-space tree has its new leaf.
pub open spec fn space_leaf_placed(s: StateV, target: u64, raw: Seq<u8>, space: Seq<BgV>, gone: u64) -> StateV {
    StateV {
        pending: s.pending.insert(target, raw),
        space,
        add: s.add.push((target, 0, FREE_SPACE_TREE_OBJECTID)),
        remove: s.remove.push((gone, 0)),
        ..s
    }
}

/// A tree none of whose blocks is free does not notice a block put into free
/// space.
proof fn unnoticed(fs: FsV, s: StateV, t: StateV, x: (u64, u8), target: u64)
    requires
        orderly(fs, s, x),
        offered(s.space, target as int) > 0,
        forall|a: u64| a != target ==> #[trigger] same_at(t.pending, s.pending, a),
        tidy(t.space),
        forall|a: int| #[trigger] offered(t.space, a) <= offered(s.space, a),
    ensures
        orderly(fs, t, x),
        contents(fs, t, x) == contents(fs, s, x),
        forall|a: u64| #[trigger]
            in_tree(fs, t.pending, x.0, x.1, a) == in_tree(fs, s.pending, x.0, x.1, a),
{
    assert forall|a: u64| #[trigger] in_tree(fs, s.pending, x.0, x.1, a) implies node_at(
        fs,
        t.pending,
        a,
    ) == node_at(fs, s.pending, a) by {
        assert(same_at(t.pending, s.pending, a));
        node_same(fs, t.pending, s.pending, a);
    }
    tree_unchanged(fs, s.pending, t.pending, x.0, x.1, 0, keys_end());
    assert forall|a: u64| #[trigger] in_tree(fs, t.pending, x.0, x.1, a) implies offered(
        t.space,
        a as int,
    ) == 0 by {
        assert(in_tree(fs, s.pending, x.0, x.1, a));
        assert(offered(t.space, a as int) <= offered(s.space, a as int));
    }
    assert forall|k: Key| #[trigger] contents(fs, t, x).contains_key(k) == contents(
        fs,
        s,
        x,
    ).contains_key(k) by {
        if contents(fs, t, x).contains_key(k) {
            let d = choose|d: Seq<u8>| #[trigger] holds(fs, t.pending, x.0, x.1, k, d);
            assert(holds(fs, s.pending, x.0, x.1, k, d));
        }
        if contents(fs, s, x).contains_key(k) {
            let d = choose|d: Seq<u8>| #[trigger] holds(fs, s.pending, x.0, x.1, k, d);
            assert(holds(fs, t.pending, x.0, x.1, k, d));
        }
    }
    assert forall|k: Key| contents(fs, t, x).contains_key(k) implies #[trigger] contents(
        fs,
        t,
        x,
    )[k] == contents(fs, s, x)[k] by {
        contents_hold(fs, t, x, k, contents(fs, t, x)[k]);
        assert(holds(fs, s.pending, x.0, x.1, k, contents(fs, t, x)[k]));
        contents_hold(fs, s, x, k, contents(fs, t, x)[k]);
    }
    assert(contents(fs, t, x) =~= contents(fs, s, x));
}

/// A new leaf of the free-space tree keeps the grove and the files.
pub proof fn leaf_placed_keeps(
    fs: FsV,
    s: StateV,
    root: (u64, u8),
    extent: (u64, u8),
    files: (u64, u8),
    target: u64,
    rest: Seq<BgV>,
    raw: Seq<u8>,
    gone: u64,
)
    requires
        fs.sb.node_size > 0,
        grove(fs, s, root, extent, files),
        alloc_meta(s.space, fs.sb.node_size, 0) == Some((target, rest)),
    ensures
        ({
            let t = space_leaf_placed(
                s,
                target,
                raw,
                free_block(rest, gone, fs.sb.node_size),
                gone,
            );
            &&& grove(fs, t, root, extent, files)
            &&& contents(fs, t, files) == contents(fs, s, files)
            &&& contents(fs, t, root) == contents(fs, s, root)
            &&& contents(fs, t, extent) == contents(fs, s, extent)
            &&& forall|a: int| #[trigger] offered(t.space, a) <= offered(s.space, a)
            &&& forall|a: u64| #[trigger]
                in_tree(fs, t.pending, root.0, root.1, a) == in_tree(
                    fs,
                    s.pending,
                    root.0,
                    root.1,
                    a,
                )
            &&& forall|a: u64| #[trigger]
                in_tree(fs, t.pending, extent.0, extent.1, a) == in_tree(
                    fs,
                    s.pending,
                    extent.0,
                    extent.1,
                    a,
                )
            &&& forall|a: u64| #[trigger]
                in_tree(fs, t.pending, files.0, files.1, a) == in_tree(
                    fs,
                    s.pending,
                    files.0,
                    files.1,
                    a,
                )
        }),
{
    let space = free_block(rest, gone, fs.sb.node_size);
    let t = space_leaf_placed(s, target, raw, space, gone);
    metadata_is_handed_out(s.space, fs.sb.node_size, 0);
    handed_out_once(s.space, rest, target as int, fs.sb.node_size as int);
    assert(lies_in(target as int, target as int, fs.sb.node_size as int));
    assert(offered(s.space, target as int) == 1);
    assert forall|a: int| #[trigger] offered(space, a) <= offered(s.space, a) by {
        freeing_offers_nothing(rest, gone, fs.sb.node_size, a);
        if lies_in(a, target as int, fs.sb.node_size as int) {
            assert(offered(rest, a) == 0);
        }
    }
    assert(tidy(space)) by {
        assert forall|a: int| #[trigger] offered(space, a) <= 1 by {
            assert(offered(space, a) <= offered(s.space, a));
            assert(offered(s.space, a) <= 1);
        }
    }
    assert forall|a: u64| a != target implies #[trigger] same_at(t.pending, s.pending, a) by {}
    unnoticed(fs, s, t, root, target);
    unnoticed(fs, s, t, extent, target);
    unnoticed(fs, s, t, files, target);
    assert(beside(fs, t, root, extent)) by {
        assert forall|a: u64| !(#[trigger] in_tree(fs, t.pending, root.0, root.1, a) && in_tree(
            fs,
            t.pending,
            extent.0,
            extent.1,
            a,
        )) by {
            assert(in_tree(fs, t.pending, extent.0, extent.1, a) == in_tree(
                fs,
                s.pending,
                extent.0,
                extent.1,
                a,
            ));
            assert(in_tree(fs, t.pending, root.0, root.1, a) == in_tree(
                fs,
                s.pending,
                root.0,
                root.1,
                a,
            ));
        }
    }
    assert(beside(fs, t, root, files)) by {
        assert forall|a: u64| !(#[trigger] in_tree(fs, t.pending, root.0, root.1, a) && in_tree(
            fs,
            t.pending,
            files.0,
            files.1,
            a,
        )) by {
            assert(in_tree(fs, t.pending, files.0, files.1, a) == in_tree(
                fs,
                s.pending,
                files.0,
                files.1,
                a,
            ));
            assert(in_tree(fs, t.pending, root.0, root.1, a) == in_tree(
                fs,
                s.pending,
                root.0,
                root.1,
                a,
            ));
        }
    }
    assert(beside(fs, t, extent, files)) by {
        assert forall|a: u64| !(#[trigger] in_tree(fs, t.pending, extent.0, extent.1, a)
            && in_tree(fs, t.pending, files.0, files.1, a)) by {
            assert(in_tree(fs, t.pending, files.0, files.1, a) == in_tree(
                fs,
                s.pending,
                files.0,
                files.1,
                a,
            ));
            assert(in_tree(fs, t.pending, extent.0, extent.1, a) == in_tree(
                fs,
                s.pending,
                extent.0,
                extent.1,
                a,
            ));
        }
    }
}

/// The change of the root tree that a new free-space tree calls for.
pub open spec fn space_repoint(generation: u64, target: u64) -> Seq<OpV> {
    seq![
        repoint(
            FREE_SPACE_TREE_OBJECTID,
            generation,
            (target, 0),
            "fst root item not found"@,
            "root item truncated"@,
        ),
    ]
}

/// Pointing another tree's root item elsewhere does not touch that of the files.
proof fn other_repointed(m: Map<Key, Seq<u8>>, ops: Seq<OpV>)
    requires
        ops.len() == 1,
        ops[0] matches OpV::Edit { key, .. } && (key.objectid == EXTENT_TREE_OBJECTID
            || key.objectid == FREE_SPACE_TREE_OBJECTID),
    ensures
        lists_files_alike(m, map_after_all(m, ops)),
{
    assert(ops.drop_last() =~= Seq::<OpV>::empty());
    assert(map_after_all(m, ops.drop_last()) == m);
}

/// Rewriting the free-space tree keeps the grove and the files.
pub proof fn space_tree_keeps(
    fs: FsV,
    generation: u64,
    s: StateV,
    root: (u64, u8),
    extent: (u64, u8),
    files: (u64, u8),
    seen: bool,
)
    requires
        fs.sb.node_size > 0,
        grove(fs, s, root, extent, files),
        root.1 < 255,
        space_tree_updated(fs, generation, s, root, seen) is Ok,
    ensures
        ({
            let (t, r) = space_tree_updated(fs, generation, s, root, seen)->Ok_0;
            &&& grove(fs, t, r, extent, files)
            &&& contents(fs, t, files) == contents(fs, s, files)
            &&& lists_files_alike(contents(fs, s, root), contents(fs, t, r))
        }),
{
    if has_space_tree(fs) {
        if let Some(old_root) = optional_root(fs, FREE_SPACE_TREE_OBJECTID, seen) {
            reveal(space_tree_rewritten);
            let (target, rest) = alloc_meta(s.space, fs.sb.node_size, 0)->Some_0;
            let space = free_block(rest, old_root.bytenr, fs.sb.node_size);
            let node = node_at(fs, s.pending, old_root.bytenr)->Ok_0;
            let raw = emit_leaf(
                space_leaf(fs, generation, target, node.flags, node.chunk_tree_uuid, space),
                fs.sb.node_size,
            )->Ok_0;
            let t = space_leaf_placed(s, target, raw, space, old_root.bytenr);
            leaf_placed_keeps(
                fs,
                s,
                root,
                extent,
                files,
                target,
                rest,
                raw,
                old_root.bytenr,
            );
            one_stays_low(fs, generation, ROOT_TREE_OBJECTID, t, root, space_repoint(generation, target));
            root_steps_keep(
                fs,
                generation,
                t,
                root,
                extent,
                files,
                space_repoint(generation, target),
            );
            other_repointed(contents(fs, t, root), space_repoint(generation, target));
        }
    }
}

/// One edit keeps a tree within reach.
pub proof fn one_stays_low(
    fs: FsV,
    generation: u64,
    owner: u64,
    s: StateV,
    root: (u64, u8),
    ops: Seq<OpV>,
)
    requires
        ops.len() == 1,
        ops[0] is Edit,
        root.1 < 255,
    ensures
        stays_low(fs, generation, owner, s, root, ops),
{
    reveal_with_fuel(stays_low, 2);
    assert(ops.drop_last() =~= Seq::<OpV>::empty());
    assert(ops.drop_last().len() == 0);
}

/// The change of the root tree at the end of a closing round.
pub open spec fn extent_repoint(generation: u64, to: (u64, u8)) -> Seq<OpV> {
    seq![
        repoint(
            EXTENT_TREE_OBJECTID,
            generation,
            to,
            "extent root item not found"@,
            "extent root item truncated"@,
        ),
    ]
}

/// The trees stay within reach for a closing round.
pub open spec fn closing_low(
    fs: FsV,
    generation: u64,
    s: StateV,
    root: (u64, u8),
    extent: (u64, u8),
) -> bool {
    &&& root.1 < 255
    &&& round_low(fs, generation, s, extent)
    &&& round(fs, generation, s, extent) matches Ok((t, x)) ==> stays_low(
        fs,
        generation,
        EXTENT_TREE_OBJECTID,
        t,
        x,
        used_ops(t.space),
    )
}

/// A closing round keeps the grove and the files.
pub proof fn closing_keeps(
    fs: FsV,
    generation: u64,
    s: StateV,
    root: (u64, u8),
    extent: (u64, u8),
    files: (u64, u8),
)
    requires
        fs.sb.node_size > 0,
        grove(fs, s, root, extent, files),
        closing_low(fs, generation, s, root, extent),
        closing_round(fs, generation, s, root, extent) is Ok,
    ensures
        ({
            let (t, r, x) = closing_round(fs, generation, s, root, extent)->Ok_0;
            &&& grove(fs, t, r, x, files)
            &&& contents(fs, t, files) == contents(fs, s, files)
            &&& lists_files_alike(contents(fs, s, root), contents(fs, t, r))
        }),
{
    reveal(closing_round);
    round_keeps(fs, generation, s, root, extent, files);
    let (t, x) = round(fs, generation, s, extent)->Ok_0;
    extent_steps_keep(fs, generation, t, root, x, files, used_ops(t.space));
    let (u, y) = steps(fs, generation, EXTENT_TREE_OBJECTID, t, x, used_ops(t.space))->Ok_0;
    one_stays_low(fs, generation, ROOT_TREE_OBJECTID, u, root, extent_repoint(generation, y));
    root_steps_keep(fs, generation, u, root, y, files, extent_repoint(generation, y));
    other_repointed(contents(fs, u, root), extent_repoint(generation, y));
}

/// The trees stay within reach for all closing rounds.
pub open spec fn closed_low(
    fs: FsV,
    generation: u64,
    s: StateV,
    root: (u64, u8),
    extent: (u64, u8),
    rounds: nat,
) -> bool
    decreases rounds,
{
    rounds == 0 || (closing_low(fs, generation, s, root, extent) && (closing_round(
        fs,
        generation,
        s,
        root,
        extent,
    ) matches Ok((t, r, x)) ==> settled(t) || closed_low(
        fs,
        generation,
        t,
        r,
        x,
        (rounds - 1) as nat,
    )))
}

pub proof fn closed_keeps(
    fs: FsV,
    generation: u64,
    s: StateV,
    root: (u64, u8),
    extent: (u64, u8),
    files: (u64, u8),
    rounds: nat,
)
    requires
        fs.sb.node_size > 0,
        grove(fs, s, root, extent, files),
        closed_low(fs, generation, s, root, extent, rounds),
        closed(fs, generation, s, root, extent, rounds) is Ok,
    ensures
        ({
            let (t, r) = closed(fs, generation, s, root, extent, rounds)->Ok_0;
            &&& orderly(fs, t, r)
            &&& orderly(fs, t, files)
            &&& beside(fs, t, r, files)
            &&& contents(fs, t, files) == contents(fs, s, files)
            &&& lists_files_alike(contents(fs, s, root), contents(fs, t, r))
        }),
    decreases rounds,
{
    if rounds > 0 {
        closing_keeps(fs, generation, s, root, extent, files);
        let (t, r, x) = closing_round(fs, generation, s, root, extent)->Ok_0;
        if !settled(t) {
            closed_keeps(fs, generation, t, r, x, files, (rounds - 1) as nat);
        }
    }
}

/// The root tree and the extent tree stay within reach until the transaction is
/// finished.
pub open spec fn finish_low(fs: FsV, c: ChangesV, s: StateV, fst: bool) -> bool {
    let root = (fs.sb.root, fs.sb.root_level);
    &&& stays_low(fs, c.generation, ROOT_TREE_OBJECTID, s, root, root_ops(fs, c))
    &&& match extent_start(fs, c) {
        Err(_) => true,
        Ok(x0) => match steps(
            fs,
            c.generation,
            ROOT_TREE_OBJECTID,
            s,
            root,
            root_ops(fs, c),
        ) {
            Err(_) => true,
            Ok((s1, r1)) => {
                &&& r1.1 < 255
                &&& stays_low(fs, c.generation, EXTENT_TREE_OBJECTID, s1, x0, extent_ops(c))
                &&& match steps(
                    fs,
                    c.generation,
                    EXTENT_TREE_OBJECTID,
                    s1,
                    x0,
                    extent_ops(c),
                ) {
                    Err(_) => true,
                    Ok((s2, x2)) => {
                        &&& drained_low(
                            fs,
                            c.generation,
                            s2,
                            x2,
                            MAX_CONVERGENCE_ROUNDS as nat,
                        )
                        &&& match drained(
                            fs,
                            c.generation,
                            s2,
                            x2,
                            MAX_CONVERGENCE_ROUNDS as nat,
                        ) {
                            Err(_) => true,
                            Ok((s3, x3)) => match space_tree_updated(
                                fs,
                                c.generation,
                                s3,
                                r1,
                                fst,
                            ) {
                                Err(_) => true,
                                Ok((s4, r4)) => closed_low(
                                    fs,
                                    c.generation,
                                    s4,
                                    r4,
                                    x3,
                                    MAX_CONVERGENCE_ROUNDS as nat,
                                ),
                            },
                        }
                    },
                }
            },
        },
    }
}

/// A state with the blocks and the free space that a transaction ends with.
pub open spec fn state_of(t: TxnV) -> StateV {
    StateV {
        pending: t.blocks,
        space: t.space->Some_0,
        add: Seq::empty(),
        remove: Seq::empty(),
        ledger: None,
    }
}

/// Finishing a transaction leaves a tree beside the root tree and the extent tree
/// as it is: the finished transaction holds it, in order and with the same items.
/// The root tree that it leads to is in order too, and lists the trees as the
/// transaction's changes of the root tree say.
pub proof fn finish_keeps_tree(
    fs: FsV,
    c: ChangesV,
    s: StateV,
    fst: bool,
    extent: (u64, u8),
    files: (u64, u8),
)
    requires
        fs.sb.node_size > 0,
        extent_start(fs, c) == Ok::<(u64, u8), Fault>(extent),
        grove(fs, s, (fs.sb.root, fs.sb.root_level), extent, files),
        finish_low(fs, c, s, fst),
        finalized(fs, c, s, fst) is Ok,
    ensures
        ({
            let t = finalized(fs, c, s, fst)->Ok_0;
            &&& t.generation == c.generation
            &&& t.chunk_root == c.chunk_root
            &&& t.fs_tree == c.fs_tree
            &&& orderly(fs, state_of(t), t.root)
            &&& orderly(fs, state_of(t), files)
            &&& contents(fs, state_of(t), files) == contents(fs, s, files)
            &&& all_allowed(contents(fs, s, (fs.sb.root, fs.sb.root_level)), root_ops(fs, c))
            &&& lists_files_alike(
                map_after_all(
                    contents(fs, s, (fs.sb.root, fs.sb.root_level)),
                    root_ops(fs, c),
                ),
                contents(fs, state_of(t), t.root),
            )
        }),
{
    reveal(finalized);
    let root = (fs.sb.root, fs.sb.root_level);
    let g = c.generation;
    let rounds = MAX_CONVERGENCE_ROUNDS as nat;
    root_steps_keep(fs, g, s, root, extent, files, root_ops(fs, c));
    let (s1, r1) = steps(fs, g, ROOT_TREE_OBJECTID, s, root, root_ops(fs, c))->Ok_0;
    extent_steps_keep(fs, g, s1, r1, extent, files, extent_ops(c));
    let (s2, x2) = steps(fs, g, EXTENT_TREE_OBJECTID, s1, extent, extent_ops(c))->Ok_0;
    drained_keeps(fs, g, s2, r1, x2, files, rounds);
    let (s3, x3) = drained(fs, g, s2, x2, rounds)->Ok_0;
    space_tree_keeps(fs, g, s3, r1, x3, files, fst);
    let (s4, r4) = space_tree_updated(fs, g, s3, r1, fst)->Ok_0;
    closed_keeps(fs, g, s4, r4, x3, files, rounds);
    let (s5, r5) = closed(fs, g, s4, r4, x3, rounds)->Ok_0;
    let t = finalized(fs, c, s, fst)->Ok_0;
    let e = state_of(t);
    assert(e.pending == s5.pending && e.space == s5.space);
}

/// Finishing a transaction leaves the tree of the files as it is: the finished
/// transaction holds it, in order and with the same items. The root tree that it
/// leads to is in order too, and lists the files as the transaction's changes
/// of the root tree say.
pub proof fn finish_keeps_files(
    fs: FsV,
    c: ChangesV,
    s: StateV,
    fst: bool,
    extent: (u64, u8),
)
    requires
        fs.sb.node_size > 0,
        extent_start(fs, c) == Ok::<(u64, u8), Fault>(extent),
        grove(
            fs,
            s,
            (fs.sb.root, fs.sb.root_level),
            extent,
            (c.fs_tree.bytenr, c.fs_tree.level),
        ),
        finish_low(fs, c, s, fst),
        finalized(fs, c, s, fst) is Ok,
    ensures
        ({
            let t = finalized(fs, c, s, fst)->Ok_0;
            let files = (c.fs_tree.bytenr, c.fs_tree.level);
            &&& t.generation == c.generation
            &&& t.chunk_root == c.chunk_root
            &&& t.fs_tree == c.fs_tree
            &&& orderly(fs, state_of(t), t.root)
            &&& orderly(fs, state_of(t), files)
            &&& contents(fs, state_of(t), files) == contents(fs, s, files)
            &&& all_allowed(contents(fs, s, (fs.sb.root, fs.sb.root_level)), root_ops(fs, c))
            &&& lists_files_alike(
                map_after_all(
                    contents(fs, s, (fs.sb.root, fs.sb.root_level)),
                    root_ops(fs, c),
                ),
                contents(fs, state_of(t), t.root),
            )
        }),
{
    finish_keeps_tree(fs, c, s, fst, extent, (c.fs_tree.bytenr, c.fs_tree.level));
}

} // verus!
