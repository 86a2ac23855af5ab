//! What becomes of the root of a tree while items are inserted or set, and what
//! that does to the lists of blocks to record and to take off.

use vstd::prelude::*;

use crate::fs::btrfs::tree::{child_index, child_index_range, Item, Key};
use crate::fs::btrfs::volume::{node_at, FsV};
use crate::fs::btrfs::write::balance::{granted_was_free, step_extends, steps_extend, untouched};
use crate::fs::btrfs::write::booking::{
    carries, frees, frees_joined, frees_one, header_of_node, interior_stands, keys_end,
};
use crate::fs::btrfs::write::contents::{sound, sound_interior, sound_leaf};
use crate::fs::btrfs::write::cow::{
    child_edited, edit_below, entries_for, grown, insert_below, regrow, reusable, root_header,
    spot, tree_edit, tree_insert, write_interior, Cow, CowV,
};
use crate::fs::btrfs::write::custody::noted;
use crate::fs::btrfs::write::edit::{edit_items, EditV};
use crate::fs::btrfs::write::editing::tree_edit_booked;
use crate::fs::btrfs::write::granting::{edit_grants, granted, insert_grants};
use crate::fs::btrfs::write::handout::offered;
use crate::fs::btrfs::write::insertion::tree_insert_booked;
use crate::fs::btrfs::write::linking::insert_has_heads;
use crate::fs::btrfs::write::node::{interior_of, slot_bounds};
use crate::fs::btrfs::write::space::BgV;
use crate::fs::btrfs::write::tree_map::{
    absorbed_takes_in, orderly, stays_low, step_on_map, steps_on_map, within_reach,
};
use crate::fs::btrfs::write::workspace::{
    absorbed, at_block, claim_all, drop_block, drop_blocks, owned, step, steps, OpV, StateV,
};
use crate::seqs::{first_idx, first_idx_props};
use crate::sort::stable_sort_sorts;

verus! {

/// How many children the node at `b` has.
pub open spec fn fanout(fs: FsV, p: Map<u64, Seq<u8>>, b: u64) -> int {
    match node_at(fs, p, b) {
        Ok(n) => n.ptrs.len() as int,
        Err(_) => 0,
    }
}

/// An insert leaves a leaf as root, or a root with two children or more, or one
/// with no fewer children than before, in the old root's place or instead of it.
proof fn insert_root(
    c: Cow,
    space: Seq<BgV>,
    root: u64,
    level: u8,
    it: Item,
    q: Map<u64, Seq<u8>>,
)
    requires
        level < 255,
        sound(c.fs, c.pending, root, level, 0, keys_end()),
        tree_insert(c, space, root, level, it) is Ok,
        carries(q, tree_insert(c, space, root, level, it)->Ok_0.emitted),
    ensures
        ({
            let r = tree_insert(c, space, root, level, it)->Ok_0;
            ||| r.level == 0
            ||| fanout(c.fs, q, r.root) >= 2
            ||| level > 0 && fanout(c.fs, q, r.root) >= fanout(c.fs, c.pending, root) && (r.root
                == root || frees(r.freed, root))
        }),
{
    reveal(tree_insert);
    reveal(insert_below);
    let r = tree_insert(c, space, root, level, it)->Ok_0;
    let d = insert_below(c, space, root, level, it)->Ok_0;
    let node = node_at(c.fs, c.pending, root)->Ok_0;
    insert_has_heads(c, space, root, level, it);
    header_of_node(c.fs, c.pending, root);
    if level == 0 {
        sound_leaf(c.fs, c.pending, root, 0, keys_end());
    } else {
        sound_interior(c.fs, c.pending, root, level, 0, keys_end());
    }
    let last = r.emitted.len() - 1;
    if d.heads.len() > 1 {
        let above = r.level;
        let h = root_header(c, node, above);
        let entries = entries_for(d.heads, c.generation);
        let raw = write_interior(c, h, r.root, entries)->Ok_0;
        assert(r.emitted[last] == (r.root, raw));
        interior_stands(c, q, h, r.root, entries, raw);
    } else if level > 0 && node.nr_items() > 0 {
        let h = interior_of(node, c.fs.sb.csum_type);
        let i = child_index(node.ptrs, it.key);
        child_index_range(node.ptrs, it.key);
        let below = (level - 1) as u8;
        let child = insert_below(c, space, node.ptrs[i].blockptr, below, it)->Ok_0;
        insert_has_heads(c, space, node.ptrs[i].blockptr, below, it);
        let reuse = reusable(c, node, root);
        assert(regrow(c, h, i, child, level, reuse, root) is Ok);
        let entries = grown(h.entries, i, child.heads, c.generation);
        assert(h.entries.len() == node.ptrs.len());
        let own = h.entries.update(i, entries_for(child.heads, c.generation)[0]);
        stable_sort_sorts(own + entries_for(child.heads.skip(1), c.generation));
        assert(entries.len() >= node.ptrs.len());
        let s = spot(c, child.space, level, reuse, Some(root))->Some_0;
        let raw = write_interior(c, h, s.target, entries)->Ok_0;
        assert(r.root == s.target);
        assert(r.emitted[last] == (s.target, raw));
        interior_stands(c, q, h, s.target, entries, raw);
        frees_joined(child.freed, s.freed, root);
        frees_one(root, level, root);
    }
}

/// An edit that sets an item and does not delete it.
pub open spec fn sets(e: EditV) -> bool {
    e is Used || e is Root
}

proof fn set_keeps_items(items: Seq<Item>, key: Key, e: EditV)
    requires
        sets(e),
        edit_items(items, key, e) is Ok,
    ensures
        edit_items(items, key, e)->Ok_0.len() > 0,
{
    reveal(edit_items);
    slot_bounds(items, key);
}

/// To set an item below the root takes a block for each that it gives up.
proof fn set_below(c: Cow, space: Seq<BgV>, b: u64, level: u8, key: Key, e: EditV)
    requires
        sets(e),
        edit_below(c, space, b, level, key, e, false) is Ok,
    ensures
        ({
            let d = edit_below(c, space, b, level, key, e, false)->Ok_0;
            d.node is Some && d.allocated.len() == d.freed.len()
        }),
    decreases level,
{
    reveal(edit_below);
    let node = node_at(c.fs, c.pending, b)->Ok_0;
    if level == 0 {
        set_keeps_items(node.items, key, e);
    } else {
        let i = child_index(node.ptrs, key);
        child_index_range(node.ptrs, key);
        let below = (level - 1) as u8;
        set_below(c, space, node.ptrs[i].blockptr, below, key, e);
        let child = edit_below(c, space, node.ptrs[i].blockptr, below, key, e, false)->Ok_0;
        let entries = child_edited(
            interior_of(node, c.fs.sb.csum_type).entries,
            i,
            child.node,
            c.generation,
        );
        assert(entries.len() == node.ptrs.len());
    }
}

/// To set an item leaves a leaf as root, or one with no fewer children, in the
/// old root's place or instead of it, and takes a block for each that it gives
/// up; or it gives up a root with one child.
proof fn set_root(
    c: Cow,
    space: Seq<BgV>,
    root: u64,
    level: u8,
    key: Key,
    e: EditV,
    q: Map<u64, Seq<u8>>,
)
    requires
        sets(e),
        sound(c.fs, c.pending, root, level, 0, keys_end()),
        tree_edit(c, space, root, level, key, e) is Ok,
        carries(q, tree_edit(c, space, root, level, key, e)->Ok_0.emitted),
    ensures
        ({
            let r = tree_edit(c, space, root, level, key, e)->Ok_0;
            ||| r.allocated.len() == r.freed.len() && (r.level == 0 || (level > 0 && fanout(
                c.fs,
                q,
                r.root,
            ) >= fanout(c.fs, c.pending, root) && (r.root == root || frees(r.freed, root))))
            ||| level > 0 && fanout(c.fs, c.pending, root) == 1 && frees(r.freed, root)
        }),
{
    reveal(tree_edit);
    reveal(edit_below);
    let r = tree_edit(c, space, root, level, key, e)->Ok_0;
    let node = node_at(c.fs, c.pending, root)->Ok_0;
    if level == 0 {
        set_keeps_items(node.items, key, e);
    } else {
        sound_interior(c.fs, c.pending, root, level, 0, keys_end());
        header_of_node(c.fs, c.pending, root);
        let h = interior_of(node, c.fs.sb.csum_type);
        let i = child_index(node.ptrs, key);
        child_index_range(node.ptrs, key);
        let below = (level - 1) as u8;
        set_below(c, space, node.ptrs[i].blockptr, below, key, e);
        let child = edit_below(c, space, node.ptrs[i].blockptr, below, key, e, false)->Ok_0;
        let entries = child_edited(h.entries, i, child.node, c.generation);
        assert(entries.len() == node.ptrs.len());
        let reuse = reusable(c, node, root);
        if entries.len() == 1 {
            let n = child.freed.len() as int;
            assert(r.freed[n].0 == root);
        } else {
            let s = spot(c, child.space, level, reuse, Some(root))->Some_0;
            let raw = write_interior(c, h, s.target, entries)->Ok_0;
            let last = r.emitted.len() - 1;
            assert(r.emitted[last] == (s.target, raw));
            interior_stands(c, q, h, s.target, entries, raw);
            frees_joined(child.freed, s.freed, root);
            frees_one(root, level, root);
        }
    }
}

proof fn drops_tally(s: StateV, freed: Seq<(u64, u8)>, size: u32)
    ensures
        ({
            let t = drop_blocks(s, freed, size);
            t.add.len() - t.remove.len() == s.add.len() - s.remove.len() - freed.len()
        }),
    decreases freed.len(),
{
    if freed.len() > 0 {
        drops_tally(s, freed.drop_last(), size);
        let t = drop_blocks(s, freed.drop_last(), size);
        first_idx_props(t.add, at_block(freed.last().0));
    }
}

/// What is given up and was not noted as built is noted as given up.
proof fn drops_note(s: StateV, freed: Seq<(u64, u8)>, size: u32, b: u64)
    requires
        !noted(s.add, b),
    ensures
        ({
            let t = drop_blocks(s, freed, size);
            &&& !noted(t.add, b)
            &&& frees(freed, b) ==> t.remove.len() > 0
            &&& s.remove.len() <= t.remove.len()
        }),
    decreases freed.len(),
{
    if freed.len() > 0 {
        let front = freed.drop_last();
        drops_note(s, front, size, b);
        let t = drop_blocks(s, front, size);
        let (x, level) = freed.last();
        let u = drop_block(t, x, level, size);
        let p = first_idx(t.add, at_block(x));
        first_idx_props(t.add, at_block(x));
        if noted(u.add, b) {
            let j = choose|j: int| 0 <= j < u.add.len() && (#[trigger] u.add[j]).0 == b;
            let l = if p < t.add.len() && j >= p {
                j + 1
            } else {
                j
            };
            assert(t.add[l].0 == b);
        }
        if frees(freed, b) && !frees(front, b) {
            let i = choose|i: int| 0 <= i < freed.len() && (#[trigger] freed[i]).0 == b;
            if i < front.len() {
                assert(front[i].0 == b);
            }
            assert(x == b);
            if p < t.add.len() {
                assert(t.add[p].0 == b);
            }
        }
    }
}

/// What booking a change does to the lists.
proof fn absorbed_tally(s: StateV, r: CowV, size: u32, owner: u64, b: u64)
    requires
        size > 0,
        granted(s.space, size, owner, r.allocated) is Some,
        absorbed(s, r, size, owner) is Ok,
    ensures
        ({
            let t = absorbed(s, r, size, owner)->Ok_0.0;
            &&& t.add.len() - t.remove.len() == s.add.len() - s.remove.len() + r.allocated.len()
                - r.freed.len()
            &&& untouched(s, b) && frees(r.freed, b) ==> t.remove.len() > 0
            &&& untouched(s, b) ==> !noted(t.add, b)
        }),
{
    let ledger = match s.ledger {
        None => None,
        Some(l) => claim_all(l, r.allocated, size),
    };
    let a = StateV {
        add: s.add + owned(r.allocated, owner),
        space: r.space,
        ledger,
        ..s
    };
    drops_tally(a, r.freed, size);
    if untouched(s, b) {
        assert(!noted(a.add, b)) by {
            if noted(a.add, b) {
                let j = choose|j: int| 0 <= j < a.add.len() && (#[trigger] a.add[j]).0 == b;
                if j < s.add.len() {
                    assert(s.add[j].0 == b);
                    assert(noted(s.add, b));
                } else {
                    let i = j - s.add.len();
                    assert(a.add[j] == owned(r.allocated, owner)[i]);
                    granted_was_free(s.space, size, owner, r.allocated, i);
                }
            }
        }
        drops_note(a, r.freed, size, b);
    }
}

/// The root of a tree is a leaf, or was there before the lists were begun, or
/// has two children or more.
pub open spec fn well_rooted(fs: FsV, s: StateV, root: (u64, u8)) -> bool {
    root.1 == 0 || untouched(s, root.0) || fanout(fs, s.pending, root.0) >= 2
}

/// An operation that inserts an item or sets one.
pub open spec fn inserts_or_sets(op: OpV) -> bool {
    match op {
        OpV::Insert { .. } => true,
        OpV::Edit { edit, .. } => sets(edit),
        OpV::Append { .. } => false,
    }
}

/// Where nothing is noted as given up, a well rooted tree stays so, and setting
/// an item notes nothing as built.
proof fn step_roots(
    fs: FsV,
    generation: u64,
    owner: u64,
    s: StateV,
    root: (u64, u8),
    op: OpV,
)
    requires
        fs.sb.node_size > 0,
        inserts_or_sets(op),
        within_reach(op, root.1),
        orderly(fs, s, root),
        step(fs, generation, owner, s, root, op) is Ok,
        well_rooted(fs, s, root),
        step(fs, generation, owner, s, root, op)->Ok_0.0.remove.len() == 0,
        s.remove.len() == 0,
    ensures
        ({
            let (t, at) = step(fs, generation, owner, s, root, op)->Ok_0;
            &&& well_rooted(fs, t, at)
            &&& op is Edit ==> t.add.len() == s.add.len()
        }),
{
    let size = fs.sb.node_size;
    let c = Cow { fs, pending: s.pending, owner, generation };
    let (t, at) = step(fs, generation, owner, s, root, op)->Ok_0;
    step_on_map(fs, generation, owner, s, root, op);
    assert(offered(t.space, root.0 as int) <= offered(s.space, root.0 as int));
    match op {
        OpV::Insert { key, data } => {
            let it = Item { key, data };
            let r = tree_insert(c, s.space, root.0, root.1, it)->Ok_0;
            tree_insert_booked(c, s.space, root.0, root.1, it);
            absorbed_takes_in(fs, s, root.0, root.1, r, size, owner);
            insert_root(c, s.space, root.0, root.1, it, t.pending);
            insert_grants(c, s.space, root.0, root.1, it);
            absorbed_tally(s, r, size, owner, root.0);
        },
        OpV::Edit { key, edit } => {
            let r = tree_edit(c, s.space, root.0, root.1, key, edit)->Ok_0;
            tree_edit_booked(c, s.space, root.0, root.1, key, edit);
            absorbed_takes_in(fs, s, root.0, root.1, r, size, owner);
            set_root(c, s.space, root.0, root.1, key, edit, t.pending);
            edit_grants(c, s.space, root.0, root.1, key, edit);
            absorbed_tally(s, r, size, owner, root.0);
        },
        OpV::Append { .. } => {},
    }
}

/// Where nothing is noted as given up, a well rooted tree stays so while items
/// are inserted and set, and setting items notes nothing as built.
pub proof fn steps_root(
    fs: FsV,
    generation: u64,
    owner: u64,
    s: StateV,
    root: (u64, u8),
    ops: Seq<OpV>,
)
    requires
        fs.sb.node_size > 0,
        forall|i: int| 0 <= i < ops.len() ==> inserts_or_sets(#[trigger] ops[i]),
        orderly(fs, s, root),
        stays_low(fs, generation, owner, s, root, ops),
        steps(fs, generation, owner, s, root, ops) is Ok,
        well_rooted(fs, s, root),
        steps(fs, generation, owner, s, root, ops)->Ok_0.0.remove.len() == 0,
    ensures
        ({
            let (t, at) = steps(fs, generation, owner, s, root, ops)->Ok_0;
            &&& well_rooted(fs, t, at)
            &&& (forall|i: int| 0 <= i < ops.len() ==> (#[trigger] ops[i]) is Edit) ==> t.add.len()
                == s.add.len()
        }),
    decreases ops.len(),
{
    if ops.len() > 0 {
        let front = ops.drop_last();
        let (t, at) = steps(fs, generation, owner, s, root, front)->Ok_0;
        let op = ops.last();
        assert(ops.drop_last() == front);
        assert forall|i: int| 0 <= i < front.len() implies inserts_or_sets(#[trigger] front[i]) by {
            assert(front[i] == ops[i]);
        }
        assert(inserts_or_sets(ops[ops.len() - 1]));
        step_extends(fs, generation, owner, t, at, op);
        steps_extend(fs, generation, owner, s, root, front);
        steps_root(fs, generation, owner, s, root, front);
        steps_on_map(fs, generation, owner, s, root, front);
        step_roots(fs, generation, owner, t, at, op);
        if forall|i: int| 0 <= i < ops.len() ==> (#[trigger] ops[i]) is Edit {
            assert forall|i: int| 0 <= i < front.len() implies (#[trigger] front[i]) is Edit by {
                assert(front[i] == ops[i]);
            }
            assert(ops[ops.len() - 1] is Edit);
        }
    }
}

} // verus!
