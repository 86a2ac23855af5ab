//! A finished transaction leaves the used counter of every block group at the
//! number of bytes that the extent tree records in that group.

use vstd::prelude::*;
use vstd::set::fold::{is_fun_commutative, lemma_fold_empty, lemma_fold_insert};
use vstd::set_lib::{lemma_int_range, lemma_set_subset_finite, set_int_range};

use crate::bytes::{enc64, enc64_len, le64_of_enc, splice};
use crate::error::Fault;
use crate::fs::btrfs::files::disk_item;
use crate::fs::btrfs::roots::optional_root;
use crate::fs::btrfs::tree::{
    key_ord_injective, Key, BLOCK_GROUP_ITEM_KEY, EXTENT_ITEM_KEY, EXTENT_TREE_OBJECTID,
    FREE_SPACE_TREE_OBJECTID, METADATA_ITEM_KEY, ROOT_TREE_OBJECTID,
};
use crate::fs::btrfs::volume::{node_at, FsV};
use crate::fs::btrfs::write::balance::{
    alloc_counts, balanced, bulk, bulk_joined, bulk_pushed, countable, free_counts, groups_apart,
    home_same, parted, places, same_groups, share, sites, stays_untouched, steps_balance,
    steps_extend, untouched, well_kept,
};
use crate::fs::btrfs::write::booking::{frees, key_in_range, keys_end};
use crate::fs::btrfs::write::bookkeeping::{block_key, given_up};
use crate::fs::btrfs::write::change::{commits_clear, op_key, ops_elsewhere};
use crate::fs::btrfs::write::commit::committed;
use crate::fs::btrfs::write::contents::in_tree;
use crate::fs::btrfs::write::converge::{
    adding_ops, closed, closing_round, drained, extent_ops, extent_start, finalized,
    has_space_tree, removal_ops, root_ops, round, settled, space_leaf, space_tree_rewritten,
    space_tree_updated, used_ops, ChangesV, MAX_CONVERGENCE_ROUNDS,
};
use crate::fs::btrfs::write::custody::noted;
use crate::fs::btrfs::write::edit::EditV;
use crate::fs::btrfs::write::extent_tree::parse_block_group;
use crate::fs::btrfs::write::grove::{
    closed_low, closing_keeps, closing_low, drained_keeps, drained_low, extent_repoint,
    extent_steps_keep, finish_low, grove, leaf_placed_keeps, one_stays_low, root_steps_keep,
    round_keeps, round_low, space_leaf_placed, space_repoint, space_tree_keeps, state_of,
};
use crate::fs::btrfs::write::handout::{lies_in, metadata_is_handed_out, offered};
use crate::fs::btrfs::write::holdings::keeps_extents;
use crate::fs::btrfs::write::node::emit_leaf;
use crate::fs::btrfs::write::readback::committed_is_found;
use crate::fs::btrfs::write::recording::{closed_extents, extent_repointed, leads_to_extents};
use crate::fs::btrfs::write::removal::deletions_on_map;
use crate::fs::btrfs::write::rooting::{inserts_or_sets, steps_root};
use crate::fs::btrfs::write::space::{alloc_meta, free_block, BgV};
use crate::fs::btrfs::write::tree_map::{
    all_allowed, allowed, contents, map_after, map_after_all, map_edited, orderly,
    search_reads_contents, steps_on_map,
};
use crate::fs::btrfs::write::txn::TxnV;
use crate::fs::btrfs::write::unlink::deletions;
use crate::fs::btrfs::write::workspace::{steps, OpV, StateV};

verus! {

/// What an item of the extent tree records in group `g`: a tree block, or a data
/// extent with its length.
pub open spec fn recorded_by(m: Seq<BgV>, size: u32, g: int, k: Key) -> int {
    if k.item_type == METADATA_ITEM_KEY {
        share(m, k.objectid, size as int, g)
    } else if k.item_type == EXTENT_ITEM_KEY {
        share(m, k.objectid, k.offset as int, g)
    } else {
        0
    }
}

/// The sum of what `keys` record in group `g`.
pub open spec fn recorded_sum(m: Seq<BgV>, size: u32, g: int, keys: Set<Key>) -> int {
    keys.fold(0int, |sum: int, k: Key| sum + recorded_by(m, size, g, k))
}

/// How many bytes an extent tree, as a map, records in group `g`.
pub open spec fn held(m: Seq<BgV>, size: u32, g: int, tree: Map<Key, Seq<u8>>) -> int {
    recorded_sum(m, size, g, tree.dom())
}

/// There are only so many keys.
pub proof fn keys_finite(s: Set<Key>)
    ensures
        s.finite(),
{
    let f = |k: Key| k.ord();
    let inv = |x: int| choose|k: Key| k.ord() == x;
    let range = set_int_range(0, keys_end());
    lemma_int_range(0, keys_end());
    let image = s.map(f);
    assert forall|x: int| #[trigger] image.contains(x) implies range.contains(x) by {
        let k = choose|k: Key| s.contains(k) && x == f(k);
        key_in_range(k);
    }
    lemma_set_subset_finite(range, image);
    image.lemma_map_finite(inv);
    let back = image.map(inv);
    assert forall|k: Key| #[trigger] s.contains(k) implies back.contains(k) by {
        assert(image.contains(f(k)));
        let l = inv(f(k));
        assert(l.ord() == k.ord());
        key_ord_injective(l, k);
        assert(inv(f(k)) == k);
    }
    lemma_set_subset_finite(back, s);
}

proof fn sum_with(m: Seq<BgV>, size: u32, g: int, keys: Set<Key>, k: Key)
    requires
        !keys.contains(k),
    ensures
        recorded_sum(m, size, g, keys.insert(k)) == recorded_sum(m, size, g, keys) + recorded_by(
            m,
            size,
            g,
            k,
        ),
{
    let f = |sum: int, k: Key| sum + recorded_by(m, size, g, k);
    keys_finite(keys);
    assert(is_fun_commutative(f));
    lemma_fold_insert(keys, 0int, f, k);
}

proof fn sum_not_negative(m: Seq<BgV>, size: u32, g: int, keys: Set<Key>)
    ensures
        recorded_sum(m, size, g, keys) >= 0,
    decreases keys.len(),
{
    keys_finite(keys);
    if keys =~= Set::empty() {
        lemma_fold_empty::<Key, int>(0int, |sum: int, k: Key| sum + recorded_by(m, size, g, k));
    } else {
        let k = keys.choose();
        let rest = keys.remove(k);
        assert(keys.contains(k));
        sum_not_negative(m, size, g, rest);
        sum_with(m, size, g, rest, k);
        assert(rest.insert(k) =~= keys);
    }
}

/// What an operation on the extent tree adds to what it records in group `g`.
pub open spec fn worth(m: Seq<BgV>, size: u32, g: int, op: OpV) -> int {
    match op {
        OpV::Insert { key, .. } => recorded_by(m, size, g, key),
        OpV::Edit { key, edit } => if edit is Delete {
            -recorded_by(m, size, g, key)
        } else {
            0
        },
        OpV::Append { .. } => 0,
    }
}

/// What operations on the extent tree add to what it records in group `g`.
pub open spec fn worth_all(m: Seq<BgV>, size: u32, g: int, ops: Seq<OpV>) -> int
    decreases ops.len(),
{
    if ops.len() == 0 {
        0
    } else {
        worth_all(m, size, g, ops.drop_last()) + worth(m, size, g, ops.last())
    }
}

/// The operations that the extent tree is kept with: an item is inserted or
/// deleted, or a counter is set.
pub open spec fn keeps_books(op: OpV) -> bool {
    match op {
        OpV::Insert { .. } => true,
        OpV::Edit { edit, .. } => edit is Delete || edit is Used,
        OpV::Append { .. } => false,
    }
}

proof fn op_adds(m: Seq<BgV>, size: u32, g: int, tree: Map<Key, Seq<u8>>, op: OpV)
    requires
        allowed(tree, op),
        keeps_books(op),
    ensures
        held(m, size, g, map_after(tree, op)) == held(m, size, g, tree) + worth(m, size, g, op),
{
    match op {
        OpV::Insert { key, data } => {
            sum_with(m, size, g, tree.dom(), key);
            assert(map_after(tree, op).dom() =~= tree.dom().insert(key));
        },
        OpV::Edit { key, edit } => {
            let n = map_edited(tree, key, edit);
            if edit is Delete {
                let rest = tree.dom().remove(key);
                sum_with(m, size, g, rest, key);
                assert(rest.insert(key) =~= tree.dom());
                assert(n.dom() =~= rest);
            } else {
                assert(n.dom() =~= tree.dom());
            }
        },
        OpV::Append { .. } => {},
    }
}

/// Operations that go through add what they are worth.
pub proof fn ops_add(m: Seq<BgV>, size: u32, g: int, tree: Map<Key, Seq<u8>>, ops: Seq<OpV>)
    requires
        all_allowed(tree, ops),
        forall|i: int| 0 <= i < ops.len() ==> keeps_books(#[trigger] ops[i]),
    ensures
        held(m, size, g, map_after_all(tree, ops)) == held(m, size, g, tree) + worth_all(
            m,
            size,
            g,
            ops,
        ),
        held(m, size, g, map_after_all(tree, ops)) >= 0,
    decreases ops.len(),
{
    sum_not_negative(m, size, g, map_after_all(tree, ops).dom());
    if ops.len() > 0 {
        let front = ops.drop_last();
        assert forall|i: int| 0 <= i < front.len() implies keeps_books(#[trigger] front[i]) by {
            assert(front[i] == ops[i]);
        }
        ops_add(m, size, g, tree, front);
        assert(keeps_books(ops[ops.len() - 1]));
        op_adds(m, size, g, map_after_all(tree, front), ops.last());
    }
}

proof fn removal_worth(m: Seq<BgV>, size: u32, g: int, remove: Seq<(u64, u8)>)
    ensures
        worth_all(m, size, g, removal_ops(remove)) == -bulk(m, places(remove), size as int, g),
    decreases remove.len(),
{
    let ops = removal_ops(remove);
    if remove.len() > 0 {
        removal_worth(m, size, g, remove.drop_last());
        assert(ops.drop_last() =~= removal_ops(remove.drop_last()));
        assert(places(remove).drop_last() =~= places(remove.drop_last()));
    }
}

proof fn adding_worth(
    m: Seq<BgV>,
    size: u32,
    g: int,
    add: Seq<(u64, u8, u64)>,
    generation: u64,
)
    ensures
        worth_all(m, size, g, adding_ops(add, generation)) == bulk(m, sites(add), size as int, g),
    decreases add.len(),
{
    let ops = adding_ops(add, generation);
    if add.len() > 0 {
        adding_worth(m, size, g, add.drop_last(), generation);
        assert(ops.drop_last() =~= adding_ops(add.drop_last(), generation));
        assert(sites(add).drop_last() =~= sites(add.drop_last()));
    }
}

proof fn used_worth(m: Seq<BgV>, size: u32, g: int, space: Seq<BgV>)
    ensures
        worth_all(m, size, g, used_ops(space)) == 0,
    decreases space.len(),
{
    if space.len() > 0 {
        used_worth(m, size, g, space.drop_last());
        assert(used_ops(space).drop_last() =~= used_ops(space.drop_last()));
    }
}

/// The key of a block group's item in the extent tree.
pub open spec fn group_key(b: BgV) -> Key {
    Key { objectid: b.group.start, item_type: BLOCK_GROUP_ITEM_KEY, offset: b.group.length }
}

/// An extent tree, as a map, holds the used counter of a block group.
pub open spec fn stores_used(tree: Map<Key, Seq<u8>>, b: BgV) -> bool {
    tree.contains_key(group_key(b)) && (parse_block_group(
        group_key(b),
        tree[group_key(b)],
    ) matches Ok(x) && x.used == b.group.used)
}

/// Bringing the counters up to date stores them.
proof fn used_is_stored(tree: Map<Key, Seq<u8>>, space: Seq<BgV>, g: int)
    requires
        all_allowed(tree, used_ops(space)),
        groups_apart(space),
        forall|h: int| 0 <= h < space.len() ==> well_kept(#[trigger] space[h]),
        0 <= g < space.len(),
    ensures
        stores_used(map_after_all(tree, used_ops(space)), space[g]),
    decreases space.len(),
{
    let front = space.drop_last();
    let ops = used_ops(space);
    let b = space.last();
    let n = map_after_all(tree, used_ops(front));
    assert(ops.drop_last() =~= used_ops(front));
    assert(ops.last() == OpV::Edit {
        key: group_key(b),
        edit: EditV::Used { used: b.group.used },
    });
    if g < front.len() {
        assert forall|h: int| 0 <= h < front.len() implies well_kept(#[trigger] front[h]) by {
            assert(front[h] == space[h]);
        }
        assert(groups_apart(front)) by {
            assert forall|x: int, y: int| 0 <= x < y < front.len() implies (
            #[trigger] front[x]).end() <= (#[trigger] front[y]).group.start || front[y].end()
                <= front[x].group.start by {
                assert(front[x] == space[x] && front[y] == space[y]);
            }
        }
        used_is_stored(tree, front, g);
        assert(front[g] == space[g]);
        assert(well_kept(space[g]));
        assert(well_kept(space[space.len() - 1]));
        assert(space[g].end() <= space[space.len() - 1].group.start || space[space.len()
            - 1].end() <= space[g].group.start);
        assert(group_key(space[g]) != group_key(b));
    } else {
        let d = n[group_key(b)];
        let e = splice(d, 0, enc64(b.group.used));
        assert(e.subrange(0, 8) =~= enc64(b.group.used)) by {
            broadcast use enc64_len;

        }
        le64_of_enc(e, 0, b.group.used);
    }
}

/// The blocks noted as given up can be taken off the extent tree.
pub open spec fn takes_off(tree: Map<Key, Seq<u8>>, remove: Seq<(u64, u8)>) -> bool {
    all_allowed(tree, removal_ops(remove))
}

/// What can be taken off is recorded.
pub proof fn takes_off_recorded(
    m: Seq<BgV>,
    size: u32,
    g: int,
    tree: Map<Key, Seq<u8>>,
    remove: Seq<(u64, u8)>,
)
    requires
        takes_off(tree, remove),
    ensures
        bulk(m, places(remove), size as int, g) <= held(m, size, g, tree),
        held(m, size, g, map_after_all(tree, removal_ops(remove))) == held(m, size, g, tree) - bulk(
            m,
            places(remove),
            size as int,
            g,
        ),
{
    ops_add(m, size, g, tree, removal_ops(remove));
    removal_worth(m, size, g, remove);
}

/// What can be taken off one tree can be taken off another that records it.
proof fn takes_off_elsewhere(
    tree: Map<Key, Seq<u8>>,
    other: Map<Key, Seq<u8>>,
    remove: Seq<(u64, u8)>,
)
    requires
        takes_off(tree, remove),
        forall|k: Key|
            given_up(remove).contains(k) && tree.contains_key(k) ==> #[trigger] other.contains_key(
                k,
            ),
    ensures
        takes_off(other, remove),
    decreases remove.len(),
{
    if remove.len() > 0 {
        let front = remove.drop_last();
        let ops = removal_ops(remove);
        let keys = given_up(front);
        let last = block_key(remove.last().0, remove.last().1);
        assert(ops.drop_last() =~= removal_ops(front));
        assert(removal_ops(front) =~= deletions(keys));
        assert forall|k: Key|
            keys.contains(k) && tree.contains_key(k) implies #[trigger] other.contains_key(k) by {
            let i = choose|i: int| 0 <= i < keys.len() && keys[i] == k;
            assert(given_up(remove)[i] == k);
        }
        takes_off_elsewhere(tree, other, front);
        deletions_on_map(tree, keys);
        deletions_on_map(other, keys);
        assert(given_up(remove)[remove.len() - 1] == last);
        assert(map_after_all(tree, removal_ops(front)).contains_key(last));
        assert(other.contains_key(last));
        assert(map_after_all(other, removal_ops(front)).contains_key(last));
    }
}

/// A leading part of what can be taken off can be taken off.
proof fn takes_off_prefix(
    tree: Map<Key, Seq<u8>>,
    remove: Seq<(u64, u8)>,
    more: Seq<(u64, u8)>,
)
    requires
        takes_off(tree, more),
        remove.is_prefix_of(more),
    ensures
        takes_off(tree, remove),
    decreases more.len(),
{
    if remove.len() < more.len() {
        let ops = removal_ops(more);
        assert(ops.drop_last() =~= removal_ops(more.drop_last()));
        assert(remove.is_prefix_of(more.drop_last()));
        takes_off_prefix(tree, remove, more.drop_last());
    } else {
        assert(remove =~= more);
    }
}

/// The counter of group `g` is right by the extent tree at `extent`, and the
/// lists of blocks to record and to take off are parted.
pub open spec fn in_balance(
    fs: FsV,
    base: Seq<BgV>,
    g: int,
    s: StateV,
    extent: (u64, u8),
) -> bool {
    let size = fs.sb.node_size;
    &&& parted(s)
    &&& balanced(base, size, g, s, held(base, size, g, contents(fs, s, extent)))
}

/// A round goes through only if what it takes off is recorded.
proof fn round_takes_off(fs: FsV, generation: u64, s: StateV, extent: (u64, u8))
    requires
        fs.sb.node_size > 0,
        orderly(fs, s, extent),
        round_low(fs, generation, s, extent),
        round(fs, generation, s, extent) is Ok,
    ensures
        takes_off(contents(fs, s, extent), s.remove),
{
    reveal(round);
    let a = StateV { remove: Seq::empty(), ..s };
    assert(orderly(fs, a, extent));
    assert(contents(fs, a, extent) == contents(fs, s, extent));
    steps_on_map(fs, generation, EXTENT_TREE_OBJECTID, a, extent, removal_ops(s.remove));
}

/// A round keeps the counters right, where what it notes as given up can be
/// taken off.
proof fn round_in_balance(
    fs: FsV,
    generation: u64,
    base: Seq<BgV>,
    g: int,
    s: StateV,
    extent: (u64, u8),
)
    requires
        fs.sb.node_size > 0,
        0 <= g < base.len(),
        orderly(fs, s, extent),
        round_low(fs, generation, s, extent),
        round(fs, generation, s, extent) is Ok,
        in_balance(fs, base, g, s, extent),
        ({
            let (u, y) = round(fs, generation, s, extent)->Ok_0;
            takes_off(contents(fs, u, y), u.remove)
        }),
    ensures
        ({
            let (u, y) = round(fs, generation, s, extent)->Ok_0;
            &&& in_balance(fs, base, g, u, y)
            &&& stays_untouched(s, u)
        }),
{
    reveal(round);
    let size = fs.sb.node_size;
    let m = contents(fs, s, extent);
    let a = StateV { remove: Seq::empty(), ..s };
    let off = removal_ops(s.remove);
    assert(orderly(fs, a, extent));
    assert(contents(fs, a, extent) == m);
    steps_on_map(fs, generation, EXTENT_TREE_OBJECTID, a, extent, off);
    let (t, x) = steps(fs, generation, EXTENT_TREE_OBJECTID, a, extent, off)->Ok_0;
    let mid = contents(fs, t, x);
    takes_off_recorded(base, size, g, m, s.remove);
    assert(places(a.remove) =~= Seq::<u64>::empty());
    assert(balanced(base, size, g, a, held(base, size, g, mid)));
    assert(parted(a));
    let b = StateV { add: Seq::empty(), ..t };
    let on = adding_ops(t.add, generation);
    assert(orderly(fs, b, x));
    assert(contents(fs, b, x) == mid);
    steps_on_map(fs, generation, EXTENT_TREE_OBJECTID, b, x, on);
    let (u, y) = steps(fs, generation, EXTENT_TREE_OBJECTID, b, x, on)->Ok_0;
    let last = contents(fs, u, y);
    steps_balance(
        fs,
        generation,
        EXTENT_TREE_OBJECTID,
        base,
        g,
        a,
        extent,
        off,
        held(base, size, g, mid),
    );
    assert(parted(b)) by {
        assert forall|z: u64| #[trigger] frees(b.remove, z) implies untouched(b, z) by {
            assert(frees(t.remove, z));
            assert(untouched(t, z));
        }
    }
    steps_balance(
        fs,
        generation,
        EXTENT_TREE_OBJECTID,
        base,
        g,
        b,
        x,
        on,
        held(base, size, g, last),
    );
    takes_off_prefix(last, t.remove, u.remove);
    assert forall|k: Key| given_up(t.remove).contains(k) && last.contains_key(
        k,
    ) implies #[trigger] mid.contains_key(k) by {
        let i = choose|i: int| 0 <= i < t.remove.len() && given_up(t.remove)[i] == k;
        assert(t.remove[i].0 == k.objectid);
        assert(frees(t.remove, k.objectid));
        assert(untouched(t, k.objectid));
        assert forall|j: int| 0 <= j < on.len() implies op_key(#[trigger] on[j]) != k by {
            if op_key(on[j]) == k {
                assert(t.add[j].0 == k.objectid);
                assert(noted(t.add, k.objectid));
            }
        }
        ops_elsewhere(mid, on, k);
    }
    takes_off_elsewhere(last, mid, t.remove);
    takes_off_recorded(base, size, g, mid, t.remove);
    assert(balanced(base, size, g, t, held(base, size, g, mid)));
    ops_add(base, size, g, mid, on);
    adding_worth(base, size, g, t.add, generation);
    assert(sites(b.add) =~= Seq::<u64>::empty());
    assert(balanced(base, size, g, b, held(base, size, g, last)));
    takes_off_recorded(base, size, g, last, u.remove);
    assert forall|z: u64| untouched(s, z) implies #[trigger] untouched(u, z) by {
        assert(untouched(a, z));
        assert(untouched(t, z));
        assert(untouched(b, z));
    }
}

/// All rounds keep the counters right, where what is noted as given up in the
/// end can be taken off.
proof fn drained_in_balance(
    fs: FsV,
    generation: u64,
    base: Seq<BgV>,
    g: int,
    s: StateV,
    root: (u64, u8),
    extent: (u64, u8),
    files: (u64, u8),
    rounds: nat,
)
    requires
        fs.sb.node_size > 0,
        0 <= g < base.len(),
        grove(fs, s, root, extent, files),
        drained_low(fs, generation, s, extent, rounds),
        drained(fs, generation, s, extent, rounds) is Ok,
        in_balance(fs, base, g, s, extent),
        ({
            let (u, y) = drained(fs, generation, s, extent, rounds)->Ok_0;
            takes_off(contents(fs, u, y), u.remove)
        }),
    ensures
        ({
            let (u, y) = drained(fs, generation, s, extent, rounds)->Ok_0;
            &&& in_balance(fs, base, g, u, y)
            &&& stays_untouched(s, u)
        }),
    decreases rounds,
{
    if rounds == 0 || settled(s) {
    } else {
        let (t, x) = round(fs, generation, s, extent)->Ok_0;
        let less = (rounds - 1) as nat;
        round_keeps(fs, generation, s, root, extent, files);
        if less == 0 || settled(t) {
        } else {
            assert(drained_low(fs, generation, t, x, less));
            round_takes_off(fs, generation, t, x);
        }
        round_in_balance(fs, generation, base, g, s, extent);
        drained_in_balance(fs, generation, base, g, t, root, x, files, less);
        let (u, y) = drained(fs, generation, t, x, less)->Ok_0;
        assert forall|z: u64| untouched(s, z) implies #[trigger] untouched(u, z) by {
            assert(untouched(t, z));
        }
    }
}

/// Where a closing round leaves nothing to record, its round left nothing.
proof fn last_round_adds_nothing(
    fs: FsV,
    generation: u64,
    s: StateV,
    root: (u64, u8),
    extent: (u64, u8),
    files: (u64, u8),
)
    requires
        fs.sb.node_size > 0,
        grove(fs, s, root, extent, files),
        closing_low(fs, generation, s, root, extent),
        closing_round(fs, generation, s, root, extent) is Ok,
        settled(closing_round(fs, generation, s, root, extent)->Ok_0.0),
        s.space.len() > 0,
    ensures
        settled(round(fs, generation, s, extent)->Ok_0.0),
{
    reveal(closing_round);
    reveal(round);
    let x = EXTENT_TREE_OBJECTID;
    let a = StateV { remove: Seq::empty(), ..s };
    let off = removal_ops(s.remove);
    assert(grove(fs, a, root, extent, files));
    assert(parted(a)) by {
        assert forall|b: u64| !#[trigger] frees(a.remove, b) by {}
    }
    extent_steps_keep(fs, generation, a, root, extent, files, off);
    steps_balance(fs, generation, x, s.space, 0, a, extent, off, 0);
    let (h, at) = steps(fs, generation, x, a, extent, off)->Ok_0;
    let b = StateV { add: Seq::empty(), ..h };
    let on = adding_ops(h.add, generation);
    assert(grove(fs, b, root, at, files));
    assert(parted(b)) by {
        assert forall|z: u64| #[trigger] frees(b.remove, z) implies untouched(b, z) by {
            assert(frees(h.remove, z));
            assert(untouched(h, z));
        }
    }
    assert(untouched(b, at.0)) by {
        assert(in_tree(fs, b.pending, at.0, at.1, at.0));
    }
    assert(untouched(b, root.0)) by {
        assert(in_tree(fs, b.pending, root.0, root.1, root.0));
    }
    extent_steps_keep(fs, generation, b, root, at, files, on);
    steps_balance(fs, generation, x, s.space, 0, b, at, on, 0);
    let (t, to) = steps(fs, generation, x, b, at, on)->Ok_0;
    let used = used_ops(t.space);
    extent_steps_keep(fs, generation, t, root, to, files, used);
    steps_balance(fs, generation, x, s.space, 0, t, to, used, 0);
    let (u, y) = steps(fs, generation, x, t, to, used)->Ok_0;
    let ops = extent_repoint(generation, y);
    one_stays_low(fs, generation, ROOT_TREE_OBJECTID, u, root, ops);
    steps_extend(fs, generation, ROOT_TREE_OBJECTID, u, root, ops);
    let (v, z) = steps(fs, generation, ROOT_TREE_OBJECTID, u, root, ops)->Ok_0;
    assert(v.remove.len() == 0);
    assert(u.remove.len() == 0 && t.remove.len() == 0);
    assert forall|i: int| 0 <= i < on.len() implies inserts_or_sets(#[trigger] on[i]) by {}
    assert forall|i: int| 0 <= i < used.len() implies inserts_or_sets(#[trigger] used[i]) by {}
    steps_root(fs, generation, x, b, at, on);
    steps_root(fs, generation, x, t, to, used);
    assert(untouched(t, root.0));
    assert(untouched(u, root.0));
    steps_root(fs, generation, ROOT_TREE_OBJECTID, u, root, ops);
}

/// A closing round keeps the counters right, where what it notes as given up can
/// be taken off.
proof fn closing_in_balance(
    fs: FsV,
    generation: u64,
    base: Seq<BgV>,
    g: int,
    s: StateV,
    root: (u64, u8),
    extent: (u64, u8),
    files: (u64, u8),
)
    requires
        fs.sb.node_size > 0,
        0 <= g < base.len(),
        grove(fs, s, root, extent, files),
        closing_low(fs, generation, s, root, extent),
        closing_round(fs, generation, s, root, extent) is Ok,
        in_balance(fs, base, g, s, extent),
        ({
            let (v, z, y) = closing_round(fs, generation, s, root, extent)->Ok_0;
            takes_off(contents(fs, v, y), v.remove)
        }),
    ensures
        ({
            let (v, z, y) = closing_round(fs, generation, s, root, extent)->Ok_0;
            &&& in_balance(fs, base, g, v, y)
            &&& leads_to_extents(contents(fs, v, z), y)
            &&& settled(v) ==> stores_used(contents(fs, v, y), v.space[g])
        }),
{
    reveal(closing_round);
    let size = fs.sb.node_size;
    round_keeps(fs, generation, s, root, extent, files);
    let (t, x) = round(fs, generation, s, extent)->Ok_0;
    let m = contents(fs, t, x);
    let used = used_ops(t.space);
    extent_steps_keep(fs, generation, t, root, x, files, used);
    let (u, y) = steps(fs, generation, EXTENT_TREE_OBJECTID, t, x, used)->Ok_0;
    let n = contents(fs, u, y);
    let ops = extent_repoint(generation, y);
    one_stays_low(fs, generation, ROOT_TREE_OBJECTID, u, root, ops);
    root_steps_keep(fs, generation, u, root, y, files, ops);
    let (v, z) = steps(fs, generation, ROOT_TREE_OBJECTID, u, root, ops)->Ok_0;
    extent_repointed(contents(fs, u, root), generation, y);
    assert(contents(fs, v, y) == n);
    let k = held(base, size, g, n);
    ops_add(base, size, g, m, used);
    used_worth(base, size, g, t.space);
    takes_off_recorded(base, size, g, n, v.remove);
    steps_extend(fs, generation, EXTENT_TREE_OBJECTID, t, x, used);
    steps_extend(fs, generation, ROOT_TREE_OBJECTID, u, root, ops);
    takes_off_prefix(n, t.remove, v.remove);
    assert forall|key: Key| given_up(t.remove).contains(key) && n.contains_key(
        key,
    ) implies #[trigger] m.contains_key(key) by {
        let i = choose|i: int| 0 <= i < t.remove.len() && given_up(t.remove)[i] == key;
        assert(key.item_type == METADATA_ITEM_KEY);
        assert forall|j: int| 0 <= j < used.len() implies op_key(#[trigger] used[j]) != key by {}
        ops_elsewhere(m, used, key);
    }
    takes_off_elsewhere(n, m, t.remove);
    round_in_balance(fs, generation, base, g, s, extent);
    takes_off_prefix(n, u.remove, v.remove);
    takes_off_recorded(base, size, g, n, u.remove);
    steps_balance(fs, generation, EXTENT_TREE_OBJECTID, base, g, t, x, used, k);
    steps_balance(fs, generation, ROOT_TREE_OBJECTID, base, g, u, root, ops, k);
    if settled(v) {
        last_round_adds_nothing(fs, generation, s, root, extent, files);
        assert(places(t.remove) =~= places(v.remove));
        assert(sites(t.add) =~= sites(v.add));
        assert(t.space[g].group.used == v.space[g].group.used);
        used_is_stored(m, t.space, g);
        assert(base[g].group.start == t.space[g].group.start);
        assert(base[g].group.start == v.space[g].group.start);
        assert(group_key(t.space[g]) == group_key(v.space[g]));
    }
}

proof fn closed_in_balance(
    fs: FsV,
    generation: u64,
    base: Seq<BgV>,
    g: int,
    s: StateV,
    root: (u64, u8),
    extent: (u64, u8),
    files: (u64, u8),
    rounds: nat,
)
    requires
        fs.sb.node_size > 0,
        0 <= g < base.len(),
        grove(fs, s, root, extent, files),
        closed_low(fs, generation, s, root, extent, rounds),
        closed(fs, generation, s, root, extent, rounds) is Ok,
        in_balance(fs, base, g, s, extent),
    ensures
        ({
            let (t, r) = closed(fs, generation, s, root, extent, rounds)->Ok_0;
            let x = closed_extents(fs, generation, s, root, extent, rounds);
            &&& settled(t)
            &&& in_balance(fs, base, g, t, x)
            &&& orderly(fs, t, x)
            &&& leads_to_extents(contents(fs, t, r), x)
            &&& stores_used(contents(fs, t, x), t.space[g])
        }),
    decreases rounds,
{
    if rounds > 0 {
        closing_keeps(fs, generation, s, root, extent, files);
        let (t, r, x) = closing_round(fs, generation, s, root, extent)->Ok_0;
        if settled(t) {
            assert(removal_ops(t.remove) =~= Seq::<OpV>::empty());
            closing_in_balance(fs, generation, base, g, s, root, extent, files);
        } else {
            let less = (rounds - 1) as nat;
            assert(closed(fs, generation, t, r, x, less) is Ok);
            assert(closed_low(fs, generation, t, r, x, less));
            assert(round(fs, generation, t, x) is Ok) by {
                reveal(closing_round);
            }
            round_takes_off(fs, generation, t, x);
            closing_in_balance(fs, generation, base, g, s, root, extent, files);
            closed_in_balance(fs, generation, base, g, t, r, x, files, less);
        }
    }
}

/// Rewriting the free-space tree leaves the extent tree alone, and only adds to
/// the list of blocks to be taken off.
proof fn space_tree_frames(
    fs: FsV,
    generation: u64,
    s: StateV,
    root: (u64, u8),
    extent: (u64, u8),
    files: (u64, u8),
    seen: bool,
)
    requires
        fs.sb.node_size > 0,
        grove(fs, s, root, extent, files),
        root.1 < 255,
        space_tree_updated(fs, generation, s, root, seen) is Ok,
    ensures
        ({
            let (t, r) = space_tree_updated(fs, generation, s, root, seen)->Ok_0;
            &&& contents(fs, t, extent) == contents(fs, s, extent)
            &&& s.remove.is_prefix_of(t.remove)
        }),
{
    if has_space_tree(fs) {
        if let Some(old_root) = optional_root(fs, FREE_SPACE_TREE_OBJECTID, seen) {
            reveal(space_tree_rewritten);
            let gone = old_root.bytenr;
            let (target, rest) = alloc_meta(s.space, fs.sb.node_size, 0)->Some_0;
            let space = free_block(rest, gone, fs.sb.node_size);
            let node = node_at(fs, s.pending, gone)->Ok_0;
            let raw = emit_leaf(
                space_leaf(fs, generation, target, node.flags, node.chunk_tree_uuid, space),
                fs.sb.node_size,
            )->Ok_0;
            let t = space_leaf_placed(s, target, raw, space, gone);
            leaf_placed_keeps(fs, s, root, extent, files, target, rest, raw, gone);
            let ops = space_repoint(generation, target);
            one_stays_low(fs, generation, ROOT_TREE_OBJECTID, t, root, ops);
            root_steps_keep(fs, generation, t, root, extent, files, ops);
            steps_extend(fs, generation, ROOT_TREE_OBJECTID, t, root, ops);
            let u = steps(fs, generation, ROOT_TREE_OBJECTID, t, root, ops)->Ok_0.0;
            assert(s.remove.is_prefix_of(u.remove)) by {
                assert(s.remove =~= t.remove.take(s.remove.len() as int));
                assert(t.remove =~= u.remove.take(t.remove.len() as int));
                assert forall|i: int| 0 <= i < s.remove.len() implies s.remove[i]
                    == u.remove[i] by {
                    assert(t.remove[i] == u.remove[i]);
                }
            }
        }
    }
}

/// The root of the free-space tree, if it is to be rewritten, is neither free
/// nor noted as built.
pub open spec fn space_root_known(fs: FsV, s: StateV, seen: bool) -> bool {
    has_space_tree(fs) ==> (optional_root(fs, FREE_SPACE_TREE_OBJECTID, seen) matches Some(o)
        ==> untouched(s, o.bytenr))
}

proof fn space_tree_in_balance(
    fs: FsV,
    generation: u64,
    base: Seq<BgV>,
    g: int,
    s: StateV,
    root: (u64, u8),
    extent: (u64, u8),
    files: (u64, u8),
    seen: bool,
)
    requires
        fs.sb.node_size > 0,
        0 <= g < base.len(),
        grove(fs, s, root, extent, files),
        root.1 < 255,
        space_tree_updated(fs, generation, s, root, seen) is Ok,
        in_balance(fs, base, g, s, extent),
        space_root_known(fs, s, seen),
        takes_off(
            contents(fs, s, extent),
            space_tree_updated(fs, generation, s, root, seen)->Ok_0.0.remove,
        ),
    ensures
        in_balance(
            fs,
            base,
            g,
            space_tree_updated(fs, generation, s, root, seen)->Ok_0.0,
            extent,
        ),
{
    if has_space_tree(fs) {
        if let Some(old_root) = optional_root(fs, FREE_SPACE_TREE_OBJECTID, seen) {
            reveal(space_tree_rewritten);
            let size = fs.sb.node_size;
            let gone = old_root.bytenr;
            let (target, rest) = alloc_meta(s.space, size, 0)->Some_0;
            let space = free_block(rest, gone, size);
            let node = node_at(fs, s.pending, gone)->Ok_0;
            let raw = emit_leaf(
                space_leaf(fs, generation, target, node.flags, node.chunk_tree_uuid, space),
                size,
            )->Ok_0;
            let t = space_leaf_placed(s, target, raw, space, gone);
            leaf_placed_keeps(fs, s, root, extent, files, target, rest, raw, gone);
            let ops = space_repoint(generation, target);
            one_stays_low(fs, generation, ROOT_TREE_OBJECTID, t, root, ops);
            root_steps_keep(fs, generation, t, root, extent, files, ops);
            steps_extend(fs, generation, ROOT_TREE_OBJECTID, t, root, ops);
            let u = steps(fs, generation, ROOT_TREE_OBJECTID, t, root, ops)->Ok_0.0;
            let m = contents(fs, s, extent);
            let k = held(base, size, g, m);
            takes_off_prefix(m, t.remove, u.remove);
            takes_off_recorded(base, size, g, m, t.remove);
            takes_off_recorded(base, size, g, m, u.remove);
            alloc_counts(s.space, size, 0, g);
            home_same(base, s.space, target, size as int);
            home_same(base, rest, gone, size as int);
            assert(sites(t.add) =~= sites(s.add).push(target));
            assert(places(t.remove) =~= places(s.remove).push(gone));
            bulk_pushed(base, sites(s.add), target, size as int, g);
            bulk_pushed(base, places(s.remove), gone, size as int, g);
            bulk_joined(base, Seq::empty(), sites(s.add), size as int, g);
            free_counts(rest, gone, size, g);
            assert(balanced(base, size, g, t, k));
            leaf_placed_parted(s, t, size, target, rest, gone);
            steps_balance(fs, generation, ROOT_TREE_OBJECTID, base, g, t, root, ops, k);
        }
    }
}

proof fn leaf_placed_parted(
    s: StateV,
    t: StateV,
    size: u32,
    target: u64,
    rest: Seq<BgV>,
    gone: u64,
)
    requires
        size > 0,
        parted(s),
        untouched(s, gone),
        alloc_meta(s.space, size, 0) == Some((target, rest)),
        t.add == s.add.push((target, 0u8, FREE_SPACE_TREE_OBJECTID)),
        t.remove == s.remove.push((gone, 0u8)),
        forall|a: int| #[trigger] offered(t.space, a) <= offered(s.space, a),
    ensures
        parted(t),
{
    metadata_is_handed_out(s.space, size, 0);
    assert(lies_in(target as int, target as int, size as int));
    assert(offered(rest, target as int) == offered(s.space, target as int) - 1);
    assert forall|b: u64| #[trigger] frees(t.remove, b) implies untouched(t, b) by {
        let i = choose|i: int| 0 <= i < t.remove.len() && (#[trigger] t.remove[i]).0 == b;
        if i < s.remove.len() {
            assert(s.remove[i].0 == b);
            assert(frees(s.remove, b));
        }
        assert(untouched(s, b));
        assert(offered(t.space, b as int) <= offered(s.space, b as int));
        if noted(t.add, b) {
            let j = choose|j: int| 0 <= j < t.add.len() && (#[trigger] t.add[j]).0 == b;
            if j < s.add.len() {
                assert(s.add[j].0 == b);
                assert(noted(s.add, b));
            }
        }
    }
}

/// The used counters of a state are right for the changes `c`, by the extent
/// tree at `extent`: the blocks noted as built, and the data extents that are to
/// be listed, are counted, and those given up are not.
pub open spec fn counted(fs: FsV, c: ChangesV, s: StateV, extent: (u64, u8)) -> bool {
    let size = fs.sb.node_size;
    let m = contents(fs, s, extent);
    &&& parted(s)
    &&& countable(s.space)
    &&& forall|g: int|
        0 <= g < s.space.len() ==> (#[trigger] s.space[g]).group.used + bulk(
            s.space,
            places(s.remove),
            size as int,
            g,
        ) == held(s.space, size, g, m) + worth_all(s.space, size, g, extent_ops(c)) + bulk(
            s.space,
            sites(s.add),
            size as int,
            g,
        )
}

/// A finished transaction leads to an extent tree in which the used counter of
/// every block group is the number of bytes that the tree records in that group.
pub open spec fn counts_right(fs: FsV, t: TxnV) -> bool {
    t.space matches Some(space) && exists|x: (u64, u8)| #[trigger]
        leads_to_extents(contents(fs, state_of(t), t.root), x) && orderly(
            fs,
            state_of(t),
            x,
        ) && forall|g: int|
            0 <= g < space.len() ==> stores_used(
                contents(fs, state_of(t), x),
                #[trigger] space[g],
            ) && space[g].group.used == held(
                space,
                fs.sb.node_size,
                g,
                contents(fs, state_of(t), x),
            )
}

/// A transaction is finished only if what is noted as given up can be taken off
/// the extent tree that lists its data extents.
pub proof fn finish_takes_off(fs: FsV, c: ChangesV, s: StateV, fst: bool, extent: (u64, u8))
    requires
        fs.sb.node_size > 0,
        extent_start(fs, c) == Ok::<(u64, u8), Fault>(extent),
        grove(
            fs,
            s,
            (fs.sb.root, fs.sb.root_level),
            extent,
            (c.fs_tree.bytenr, c.fs_tree.level),
        ),
        finish_low(fs, c, s, fst),
        finalized(fs, c, s, fst) is Ok,
    ensures
        all_allowed(contents(fs, s, extent), extent_ops(c)),
        takes_off(map_after_all(contents(fs, s, extent), extent_ops(c)), s.remove),
{
    reveal(finalized);
    let root = (fs.sb.root, fs.sb.root_level);
    let files = (c.fs_tree.bytenr, c.fs_tree.level);
    let gen = c.generation;
    let ro = root_ops(fs, c);
    let eo = extent_ops(c);
    root_steps_keep(fs, gen, s, root, extent, files, ro);
    let (s1, r1) = steps(fs, gen, ROOT_TREE_OBJECTID, s, root, ro)->Ok_0;
    extent_steps_keep(fs, gen, s1, r1, extent, files, eo);
    let (s2, x2) = steps(fs, gen, EXTENT_TREE_OBJECTID, s1, extent, eo)->Ok_0;
    if settled(s2) {
        assert(removal_ops(s2.remove) =~= Seq::<OpV>::empty());
    } else {
        round_takes_off(fs, gen, s2, x2);
    }
    steps_extend(fs, gen, ROOT_TREE_OBJECTID, s, root, ro);
    steps_extend(fs, gen, EXTENT_TREE_OBJECTID, s1, extent, eo);
    takes_off_prefix(contents(fs, s2, x2), s1.remove, s2.remove);
    takes_off_prefix(contents(fs, s2, x2), s.remove, s1.remove);
}

proof fn finish_in_balance(
    fs: FsV,
    c: ChangesV,
    s: StateV,
    fst: bool,
    extent: (u64, u8),
    g: int,
)
    requires
        fs.sb.node_size > 0,
        extent_start(fs, c) == Ok::<(u64, u8), Fault>(extent),
        grove(
            fs,
            s,
            (fs.sb.root, fs.sb.root_level),
            extent,
            (c.fs_tree.bytenr, c.fs_tree.level),
        ),
        finish_low(fs, c, s, fst),
        finalized(fs, c, s, fst) is Ok,
        counted(fs, c, s, extent),
        space_root_known(fs, s, fst),
        0 <= g < s.space.len(),
    ensures
        ({
            let t = finalized(fs, c, s, fst)->Ok_0;
            let x = finished_extents(fs, c, s, fst, extent);
            let space = t.space->Some_0;
            &&& t.space is Some
            &&& space.len() == s.space.len()
            &&& orderly(fs, state_of(t), x)
            &&& leads_to_extents(contents(fs, state_of(t), t.root), x)
            &&& stores_used(contents(fs, state_of(t), x), space[g])
            &&& space[g].group.used == held(
                space,
                fs.sb.node_size,
                g,
                contents(fs, state_of(t), x),
            )
        }),
{
    reveal(finalized);
    let base = s.space;
    let size = fs.sb.node_size;
    let root = (fs.sb.root, fs.sb.root_level);
    let files = (c.fs_tree.bytenr, c.fs_tree.level);
    let gen = c.generation;
    let rounds = MAX_CONVERGENCE_ROUNDS as nat;
    let ro = root_ops(fs, c);
    let eo = extent_ops(c);
    let m0 = contents(fs, s, extent);
    root_steps_keep(fs, gen, s, root, extent, files, ro);
    let (s1, r1) = steps(fs, gen, ROOT_TREE_OBJECTID, s, root, ro)->Ok_0;
    extent_steps_keep(fs, gen, s1, r1, extent, files, eo);
    let (s2, x2) = steps(fs, gen, EXTENT_TREE_OBJECTID, s1, extent, eo)->Ok_0;
    let m2 = contents(fs, s2, x2);
    let k = held(base, size, g, m2);
    assert forall|i: int| 0 <= i < eo.len() implies keeps_books(#[trigger] eo[i]) by {}
    ops_add(base, size, g, m0, eo);
    assert(same_groups(base, s.space));
    assert(balanced(base, size, g, s, k));
    drained_keeps(fs, gen, s2, r1, x2, files, rounds);
    let (s3, x3) = drained(fs, gen, s2, x2, rounds)->Ok_0;
    space_tree_keeps(fs, gen, s3, r1, x3, files, fst);
    space_tree_frames(fs, gen, s3, r1, x3, files, fst);
    let (s4, r4) = space_tree_updated(fs, gen, s3, r1, fst)->Ok_0;
    let (s5, r5) = closed(fs, gen, s4, r4, x3, rounds)->Ok_0;
    if settled(s2) {
        assert(removal_ops(s2.remove) =~= Seq::<OpV>::empty());
    } else {
        round_takes_off(fs, gen, s2, x2);
    }
    takes_off_recorded(base, size, g, m2, s2.remove);
    steps_extend(fs, gen, EXTENT_TREE_OBJECTID, s1, extent, eo);
    takes_off_prefix(m2, s1.remove, s2.remove);
    takes_off_recorded(base, size, g, m2, s1.remove);
    steps_balance(fs, gen, ROOT_TREE_OBJECTID, base, g, s, root, ro, k);
    steps_balance(fs, gen, EXTENT_TREE_OBJECTID, base, g, s1, extent, eo, k);
    assert(in_balance(fs, base, g, s2, x2));
    assert(round(fs, gen, s4, x3) is Ok) by {
        reveal(closing_round);
    }
    round_takes_off(fs, gen, s4, x3);
    takes_off_prefix(contents(fs, s3, x3), s3.remove, s4.remove);
    drained_in_balance(fs, gen, base, g, s2, r1, x2, files, rounds);
    assert(space_root_known(fs, s3, fst)) by {
        if let Some(o) = optional_root(fs, FREE_SPACE_TREE_OBJECTID, fst) {
            if has_space_tree(fs) {
                assert(untouched(s, o.bytenr));
                assert(untouched(s1, o.bytenr));
                assert(untouched(s2, o.bytenr));
                assert(untouched(s3, o.bytenr));
            }
        }
    }
    space_tree_in_balance(fs, gen, base, g, s3, r1, x3, files, fst);
    closed_in_balance(fs, gen, base, g, s4, r4, x3, files, rounds);
    let x5 = closed_extents(fs, gen, s4, r4, x3, rounds);
    let t = finalized(fs, c, s, fst)->Ok_0;
    let e = state_of(t);
    assert(e.pending == s5.pending && e.space == s5.space);
    let m = contents(fs, s5, x5);
    assert(contents(fs, e, x5) == m);
    assert(orderly(fs, e, x5));
    assert(contents(fs, e, t.root) == contents(fs, s5, r5));
    assert(places(s5.remove) =~= Seq::<u64>::empty());
    assert(sites(s5.add) =~= Seq::<u64>::empty());
    held_same(base, s5.space, size, g, m);
}

/// What a tree records in a group does not depend on the counters.
pub proof fn held_same(m: Seq<BgV>, n: Seq<BgV>, size: u32, g: int, tree: Map<Key, Seq<u8>>)
    requires
        same_groups(m, n),
    ensures
        held(m, size, g, tree) == held(n, size, g, tree),
{
    let f = |sum: int, k: Key| sum + recorded_by(m, size, g, k);
    let h = |sum: int, k: Key| sum + recorded_by(n, size, g, k);
    assert forall|sum: int, k: Key| #[trigger] f(sum, k) == h(sum, k) by {
        home_same(m, n, k.objectid, size as int);
        home_same(m, n, k.objectid, k.offset as int);
    }
    assert(f =~= h);
}

/// Where the extent tree is once a transaction is finished.
pub open spec fn finished_extents(
    fs: FsV,
    c: ChangesV,
    s: StateV,
    fst: bool,
    extent: (u64, u8),
) -> (u64, u8) {
    let rounds = MAX_CONVERGENCE_ROUNDS as nat;
    let root = (fs.sb.root, fs.sb.root_level);
    let gen = c.generation;
    let (s1, r1) = steps(fs, gen, ROOT_TREE_OBJECTID, s, root, root_ops(fs, c))->Ok_0;
    let (s2, x2) = steps(fs, gen, EXTENT_TREE_OBJECTID, s1, extent, extent_ops(c))->Ok_0;
    let (s3, x3) = drained(fs, gen, s2, x2, rounds)->Ok_0;
    let (s4, r4) = space_tree_updated(fs, gen, s3, r1, fst)->Ok_0;
    closed_extents(fs, gen, s4, r4, x3, rounds)
}

/// Finishing a transaction leaves every used counter right: where the counters
/// of the state are right for what is still to be recorded, each counter in the
/// finished extent tree is the sum of the extents that the tree records in that
/// block group.
pub proof fn finish_counts_right(fs: FsV, c: ChangesV, s: StateV, fst: bool, extent: (u64, u8))
    requires
        fs.sb.node_size > 0,
        extent_start(fs, c) == Ok::<(u64, u8), Fault>(extent),
        grove(
            fs,
            s,
            (fs.sb.root, fs.sb.root_level),
            extent,
            (c.fs_tree.bytenr, c.fs_tree.level),
        ),
        finish_low(fs, c, s, fst),
        finalized(fs, c, s, fst) is Ok,
        counted(fs, c, s, extent),
        space_root_known(fs, s, fst),
        s.space.len() > 0,
    ensures
        counts_right(fs, finalized(fs, c, s, fst)->Ok_0),
{
    let t = finalized(fs, c, s, fst)->Ok_0;
    let x = finished_extents(fs, c, s, fst, extent);
    finish_in_balance(fs, c, s, fst, extent, 0);
    let space = t.space->Some_0;
    assert forall|g: int| 0 <= g < space.len() implies stores_used(
        contents(fs, state_of(t), x),
        #[trigger] space[g],
    ) && space[g].group.used == held(
        space,
        fs.sb.node_size,
        g,
        contents(fs, state_of(t), x),
    ) by {
        finish_in_balance(fs, c, s, fst, extent, g);
    }
}

/// Once the transaction is committed, every block group's counter is read from
/// the device's extent tree as the sum of the extents in that group.
pub proof fn counts_right_on_device(fs: FsV, len: Option<u64>, t: TxnV, g: int)
    requires
        counts_right(fs, t),
        commits_clear(fs, len, t),
        keeps_extents(fs, len, t),
        0 <= g < t.space->Some_0.len(),
    ensures
        exists|x: (u64, u8)| #[trigger]
            leads_to_extents(contents(fs, state_of(t), t.root), x) && counter_on_device(
                fs,
                committed(fs, len, t)->Ok_0.0,
                t,
                x,
                g,
            ),
{
    let space = t.space->Some_0;
    let size = fs.sb.node_size;
    let x = choose|x: (u64, u8)| #[trigger]
        leads_to_extents(contents(fs, state_of(t), t.root), x) && orderly(
            fs,
            state_of(t),
            x,
        ) && forall|g: int|
            0 <= g < space.len() ==> stores_used(
                contents(fs, state_of(t), x),
                #[trigger] space[g],
            ) && space[g].group.used == held(space, size, g, contents(fs, state_of(t), x));
    let k = group_key(space[g]);
    assert(stores_used(contents(fs, state_of(t), x), space[g]));
    search_reads_contents(fs, state_of(t), x, k);
    committed_is_found(fs, len, t, x, k);
}

/// The device `d` has, in the extent tree at `x`, the counter of block group `g`,
/// and it is what that tree records in the group.
pub open spec fn counter_on_device(fs: FsV, d: FsV, t: TxnV, x: (u64, u8), g: int) -> bool {
    let b = t.space->Some_0[g];
    disk_item(d, x.0, group_key(b)) matches Ok(Some(raw)) && parse_block_group(
        group_key(b),
        raw,
    ) matches Ok(item) && item.used == held(
        t.space->Some_0,
        fs.sb.node_size,
        g,
        contents(fs, state_of(t), x),
    )
}

} // verus!
