//! The extent tree records the blocks that a transaction builds, and no longer
//! those that it gives up.

use vstd::prelude::*;

use crate::fs::btrfs::tree::{
    Key, EXTENT_TREE_OBJECTID, METADATA_ITEM_KEY, ROOT_TREE_OBJECTID,
};
use crate::fs::btrfs::volume::FsV;
use crate::fs::btrfs::write::batching::inserted_stays;
use crate::fs::btrfs::write::change::{op_key, ops_elsewhere};
use crate::fs::btrfs::write::converge::{
    adding_ops, closed, closing_round, drained, extent_ops, extent_start, finalized, removal_ops,
    root_ops, round, settled, space_tree_updated, ChangesV, MAX_CONVERGENCE_ROUNDS,
};
use crate::fs::btrfs::write::extent_tree::tree_block_bytes;
use crate::fs::btrfs::write::grove::round_low;
use crate::fs::btrfs::write::removal::deletions_on_map;
use crate::fs::btrfs::write::tree_map::{contents, map_after_all, orderly, steps_on_map};
use crate::fs::btrfs::write::unlink::deletions;
use crate::fs::btrfs::write::workspace::{steps, StateV};

verus! {

/// The key under which the extent tree records a tree block.
pub open spec fn block_key(bytenr: u64, level: u8) -> Key {
    Key { objectid: bytenr, item_type: METADATA_ITEM_KEY, offset: level as u64 }
}

/// The keys of blocks to be taken off.
pub open spec fn given_up(remove: Seq<(u64, u8)>) -> Seq<Key> {
    remove.map_values(|b: (u64, u8)| block_key(b.0, b.1))
}

/// The keys of blocks to be recorded.
pub open spec fn built(add: Seq<(u64, u8, u64)>) -> Seq<Key> {
    add.map_values(|b: (u64, u8, u64)| block_key(b.0, b.1))
}

/// The state in a round between taking blocks off and recording others.
pub open spec fn halfway(fs: FsV, generation: u64, s: StateV, extent: (u64, u8)) -> StateV {
    steps(
        fs,
        generation,
        EXTENT_TREE_OBJECTID,
        (StateV { remove: Seq::empty(), ..s }),
        extent,
        removal_ops(s.remove),
    )->Ok_0.0
}

/// A round of bookkeeping takes every block off the extent tree that was noted
/// as given up, records every block that was noted as built by then, with the
/// tree that it belongs to, and leaves every other item alone.
pub proof fn round_records(fs: FsV, generation: u64, s: StateV, extent: (u64, u8), k: Key, i: int)
    requires
        fs.sb.node_size > 0,
        orderly(fs, s, extent),
        round_low(fs, generation, s, extent),
        round(fs, generation, s, extent) is Ok,
    ensures
        ({
            let (t, x) = round(fs, generation, s, extent)->Ok_0;
            let before = contents(fs, s, extent);
            let after = contents(fs, t, x);
            let new = halfway(fs, generation, s, extent).add;
            &&& orderly(fs, t, x)
            &&& 0 <= i < new.len() ==> after.contains_key(block_key(new[i].0, new[i].1))
                && after[block_key(new[i].0, new[i].1)] == tree_block_bytes(generation, new[i].2)
            &&& given_up(s.remove).contains(k) && !built(new).contains(k) ==> !after.contains_key(k)
            &&& !given_up(s.remove).contains(k) && !built(new).contains(k) ==> after.contains_key(k)
                == before.contains_key(k) && (before.contains_key(k) ==> after[k] == before[k])
        }),
{
    reveal(round);
    let a = StateV { remove: Seq::empty(), ..s };
    let off = removal_ops(s.remove);
    let m = contents(fs, s, extent);
    assert(contents(fs, a, extent) == m);
    steps_on_map(fs, generation, EXTENT_TREE_OBJECTID, a, extent, off);
    let (t, x) = steps(fs, generation, EXTENT_TREE_OBJECTID, a, extent, off)->Ok_0;
    let keys = given_up(s.remove);
    assert(off =~= deletions(keys));
    deletions_on_map(m, keys);
    let mid = map_after_all(m, off);
    let b = StateV { add: Seq::empty(), ..t };
    let on = adding_ops(t.add, generation);
    assert(contents(fs, b, x) == contents(fs, t, x));
    steps_on_map(fs, generation, EXTENT_TREE_OBJECTID, b, x, on);
    let n = map_after_all(mid, on);
    let new = t.add;
    if 0 <= i < new.len() {
        let key = block_key(new[i].0, new[i].1);
        inserted_stays(mid, on, i, key, tree_block_bytes(generation, new[i].2));
    }
    if !built(new).contains(k) {
        assert forall|j: int| 0 <= j < on.len() implies op_key(#[trigger] on[j]) != k by {
            assert(built(new)[j] == op_key(on[j]));
        }
        ops_elsewhere(mid, on, k);
        assert(mid.contains_key(k) == (m.contains_key(k) && !keys.contains(k)));
    }
}

proof fn closed_settles(
    fs: FsV,
    generation: u64,
    s: StateV,
    root: (u64, u8),
    extent: (u64, u8),
    rounds: nat,
)
    ensures
        closed(fs, generation, s, root, extent, rounds) matches Ok((t, _)) ==> settled(t),
    decreases rounds,
{
    if rounds > 0 {
        match closing_round(fs, generation, s, root, extent) {
            Ok((t, r, x)) => {
                closed_settles(fs, generation, t, r, x, (rounds - 1) as nat);
            },
            Err(_) => {},
        }
    }
}

/// A transaction is finished only once no block is left to be recorded or to be
/// taken off: the state that it ends with is one with nothing noted.
pub proof fn finished_is_settled(fs: FsV, c: ChangesV, s: StateV, fst: bool)
    requires
        finalized(fs, c, s, fst) is Ok,
    ensures
        exists|e: StateV| #[trigger]
            settled(e) && finalized(fs, c, s, fst)->Ok_0.blocks == e.pending && finalized(
                fs,
                c,
                s,
                fst,
            )->Ok_0.space == Some(e.space),
{
    reveal(finalized);
    let g = c.generation;
    let rounds = MAX_CONVERGENCE_ROUNDS as nat;
    let x0 = extent_start(fs, c)->Ok_0;
    let (s1, r1) = steps(
        fs,
        g,
        ROOT_TREE_OBJECTID,
        s,
        (fs.sb.root, fs.sb.root_level),
        root_ops(fs, c),
    )->Ok_0;
    let (s2, x2) = steps(
        fs,
        g,
        EXTENT_TREE_OBJECTID,
        s1,
        x0,
        extent_ops(c),
    )->Ok_0;
    let (s3, x3) = drained(fs, g, s2, x2, rounds)->Ok_0;
    let (s4, r4) = space_tree_updated(fs, g, s3, r1, fst)->Ok_0;
    closed_settles(fs, g, s4, r4, x3, rounds);
    let (s5, r5) = closed(fs, g, s4, r4, x3, rounds)->Ok_0;
    assert(settled(s5));
}

} // verus!
