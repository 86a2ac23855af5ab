//! What a change of a tree notes for the extent tree.

use vstd::prelude::*;

use crate::fs::btrfs::search::find_item;
use crate::fs::btrfs::tree::{Item, Key};
use crate::fs::btrfs::volume::FsV;
use crate::fs::btrfs::write::booking::{booked, frees, frees_joined, frees_one, keys_end, regrown};
use crate::fs::btrfs::write::contents::in_tree;
use crate::fs::btrfs::write::cow::{tree_edit, tree_insert, Cow, CowV};
use crate::fs::btrfs::write::edit::EditV;
use crate::fs::btrfs::write::editing::{tree_edit_booked, tree_edit_reworked};
use crate::fs::btrfs::write::handout::offered;
use crate::fs::btrfs::write::insertion::{tree_insert_booked, tree_insert_grafted};
use crate::fs::btrfs::write::linking::{
    known, linked, only_known_reached, tree_edit_linked, tree_insert_linked,
};
use crate::fs::btrfs::write::tree_map::{
    absorbed_takes_in, confined, orderly, search_reads_contents, stays_low, step_on_map,
    steps_on_map, taken_in, within_reach,
};
use crate::fs::btrfs::write::workspace::{
    absorbed, at_block, claim_all, drop_blocks, edit_step, insert_step, owned, recorded, step,
    steps, OpV, StateV,
};
use crate::seqs::{first_idx, first_idx_props};

verus! {

/// Whether block `a` is noted to be recorded.
pub open spec fn noted(add: Seq<(u64, u8, u64)>, a: u64) -> bool {
    exists|i: int| 0 <= i < add.len() && (#[trigger] add[i]).0 == a
}

proof fn noted_without(add: Seq<(u64, u8, u64)>, p: int, a: u64)
    requires
        0 <= p < add.len(),
        add[p].0 != a,
    ensures
        noted(add.remove(p), a) == noted(add, a),
{
    let r = add.remove(p);
    if noted(add, a) {
        let i = choose|i: int| 0 <= i < add.len() && (#[trigger] add[i]).0 == a;
        if i < p {
            assert(r[i].0 == a);
        } else {
            assert(r[i - 1].0 == a);
        }
    }
    if noted(r, a) {
        let i = choose|i: int| 0 <= i < r.len() && (#[trigger] r[i]).0 == a;
        if i < p {
            assert(add[i].0 == a);
        } else {
            assert(add[i + 1].0 == a);
        }
    }
}

proof fn noted_owned(add: Seq<(u64, u8, u64)>, blocks: Seq<(u64, u8)>, owner: u64, a: u64)
    ensures
        noted(add + owned(blocks, owner), a) == (noted(add, a) || frees(blocks, a)),
{
    let o = owned(blocks, owner);
    let all = add + o;
    if noted(add, a) {
        let i = choose|i: int| 0 <= i < add.len() && (#[trigger] add[i]).0 == a;
        assert(all[i].0 == a);
    }
    if frees(blocks, a) {
        let i = choose|i: int| 0 <= i < blocks.len() && (#[trigger] blocks[i]).0 == a;
        assert(o[i].0 == a);
        assert(all[add.len() + i].0 == a);
    }
    if noted(all, a) {
        let i = choose|i: int| 0 <= i < all.len() && (#[trigger] all[i]).0 == a;
        if i < add.len() {
            assert(add[i].0 == a);
        } else {
            assert(o[i - add.len()].0 == a);
            assert(blocks[i - add.len()].0 == a);
        }
    }
}

/// Dropping blocks forgets nothing about others, and notes only these as given
/// up.
proof fn dropped_notes(s: StateV, freed: Seq<(u64, u8)>, node_size: u32, a: u64)
    ensures
        !frees(freed, a) ==> noted(drop_blocks(s, freed, node_size).add, a) == noted(s.add, a),
        frees(drop_blocks(s, freed, node_size).remove, a) ==> frees(s.remove, a) || frees(
            freed,
            a,
        ),
    decreases freed.len(),
{
    if freed.len() > 0 {
        let front = freed.drop_last();
        let (b, level) = freed.last();
        dropped_notes(s, front, node_size, a);
        let t = drop_blocks(s, front, node_size);
        assert(freed =~= front + seq![(b, level)]);
        frees_joined(front, seq![(b, level)], a);
        frees_one(b, level, a);
        let f = at_block(b);
        let p = first_idx(t.add, f);
        first_idx_props(t.add, f);
        if p < t.add.len() {
            assert(f(t.add[p]));
            if a != b {
                noted_without(t.add, p, a);
            }
        } else {
            assert(t.remove.push((b, level)) =~= t.remove + seq![(b, level)]);
            frees_joined(t.remove, seq![(b, level)], a);
        }
    }
}

/// What a change of the tree at `root` notes: the blocks of the tree at `at`
/// that comes of it are noted, or were part of the old tree and not noted
/// before; what was noted of other blocks stays so; and what is noted as given
/// up was so before, or was the old tree's or free and is neither now.
pub open spec fn notes(fs: FsV, s: StateV, t: StateV, root: (u64, u8), at: (u64, u8)) -> bool {
    &&& forall|a: u64| #[trigger]
        in_tree(fs, t.pending, at.0, at.1, a) ==> noted(t.add, a) || (in_tree(
            fs,
            s.pending,
            root.0,
            root.1,
            a,
        ) && !noted(s.add, a))
    &&& forall|a: u64|
        !in_tree(fs, s.pending, root.0, root.1, a) && offered(s.space, a as int) == 0
            && #[trigger] noted(s.add, a) ==> noted(t.add, a)
    &&& forall|b: u64| #[trigger]
        frees(t.remove, b) ==> frees(s.remove, b) || ((in_tree(
            fs,
            s.pending,
            root.0,
            root.1,
            b,
        ) || offered(s.space, b as int) > 0) && !in_tree(fs, t.pending, at.0, at.1, b) && offered(
            t.space,
            b as int,
        ) == 0)
}

proof fn change_notes(fs: FsV, generation: u64, owner: u64, s: StateV, t: StateV, root: (u64, u8), r: CowV)
    requires
        orderly(fs, s, root),
        booked(fs, s.pending, root.0, root.1, s.space, r.emitted, r.freed, r.space),
        taken_in(fs, s, t, root.0, root.1, r),
        regrown(fs, s.pending, t.pending, root.0, root.1, s.space, r),
        linked(
            (Cow { fs, pending: s.pending, owner, generation }),
            root.0,
            root.1,
            r.emitted,
            r.allocated,
        ),
        known(
            (Cow { fs, pending: s.pending, owner, generation }),
            root.0,
            root.1,
            r.emitted,
            r.root,
        ),
        absorbed(s, r, fs.sb.node_size, owner) matches Ok(x) && x.0 == t,
    ensures
        notes(fs, s, t, root, (r.root, r.level)),
{
    let c = Cow { fs, pending: s.pending, owner, generation };
    let size = fs.sb.node_size;
    let base = match s.ledger {
        None => s,
        Some(m) => StateV { ledger: Some(claim_all(m, r.allocated, size)->Some_0), ..s },
    };
    assert(t == recorded(base, r, size, owner));
    let a0 = StateV { add: base.add + owned(r.allocated, owner), space: r.space, ..base };
    let d = drop_blocks(a0, r.freed, size);
    assert(t.add == d.add && t.remove == d.remove);
    assert forall|a: u64| !frees(r.freed, a) implies #[trigger] noted(t.add, a) == (noted(s.add, a)
        || frees(r.allocated, a)) by {
        dropped_notes(a0, r.freed, size, a);
        noted_owned(s.add, r.allocated, owner, a);
    }
    assert forall|a: u64| #[trigger] in_tree(fs, t.pending, r.root, r.level, a) implies noted(
        t.add,
        a,
    ) || (in_tree(fs, s.pending, root.0, root.1, a) && !noted(s.add, a)) by {
        assert(!frees(r.freed, a));
        only_known_reached(
            c,
            t.pending,
            root.0,
            root.1,
            r.emitted,
            r.allocated,
            r.freed,
            r.root,
            r.level,
            0,
            keys_end(),
            a,
        );
        assert(noted(t.add, a) == (noted(s.add, a) || frees(r.allocated, a)));
    }
    assert forall|a: u64|
        !in_tree(fs, s.pending, root.0, root.1, a) && offered(s.space, a as int) == 0
            && #[trigger] noted(s.add, a) implies noted(t.add, a) by {
        assert(!frees(r.freed, a));
    }
    assert forall|b: u64| #[trigger] frees(t.remove, b) implies frees(s.remove, b) || ((in_tree(
        fs,
        s.pending,
        root.0,
        root.1,
        b,
    ) || offered(s.space, b as int) > 0) && !in_tree(fs, t.pending, r.root, r.level, b) && offered(
        t.space,
        b as int,
    ) == 0) by {
        dropped_notes(a0, r.freed, size, b);
        if !frees(s.remove, b) {
            assert(frees(r.freed, b));
            assert(offered(t.space, b as int) == offered(r.space, b as int));
            assert(offered(r.space, b as int) <= offered(s.space, b as int));
        }
    }
}

proof fn insert_notes(fs: FsV, generation: u64, owner: u64, s: StateV, root: (u64, u8), it: Item)
    requires
        fs.sb.node_size > 0,
        root.1 < 255,
        orderly(fs, s, root),
        insert_step(fs, generation, owner, s, root, it) is Ok,
    ensures
        ({
            let (t, at) = insert_step(fs, generation, owner, s, root, it)->Ok_0;
            notes(fs, s, t, root, at)
        }),
{
    let c = Cow { fs, pending: s.pending, owner, generation };
    let r = tree_insert(c, s.space, root.0, root.1, it)->Ok_0;
    let (t, at) = insert_step(fs, generation, owner, s, root, it)->Ok_0;
    tree_insert_booked(c, s.space, root.0, root.1, it);
    absorbed_takes_in(fs, s, root.0, root.1, r, fs.sb.node_size, owner);
    tree_insert_grafted(c, s.space, root.0, root.1, it, t.pending);
    tree_insert_linked(c, s.space, root.0, root.1, it);
    change_notes(fs, generation, owner, s, t, root, r);
}

proof fn edit_notes(
    fs: FsV,
    generation: u64,
    owner: u64,
    s: StateV,
    root: (u64, u8),
    key: Key,
    e: EditV,
)
    requires
        fs.sb.node_size > 0,
        orderly(fs, s, root),
        edit_step(fs, generation, owner, s, root, key, e) is Ok,
    ensures
        ({
            let (t, at) = edit_step(fs, generation, owner, s, root, key, e)->Ok_0;
            notes(fs, s, t, root, at)
        }),
{
    let c = Cow { fs, pending: s.pending, owner, generation };
    let r = tree_edit(c, s.space, root.0, root.1, key, e)->Ok_0;
    let (t, at) = edit_step(fs, generation, owner, s, root, key, e)->Ok_0;
    tree_edit_booked(c, s.space, root.0, root.1, key, e);
    absorbed_takes_in(fs, s, root.0, root.1, r, fs.sb.node_size, owner);
    tree_edit_reworked(c, s.space, root.0, root.1, key, e, t.pending);
    tree_edit_linked(c, s.space, root.0, root.1, key, e);
    change_notes(fs, generation, owner, s, t, root, r);
}

pub proof fn step_notes(fs: FsV, generation: u64, owner: u64, s: StateV, root: (u64, u8), op: OpV)
    requires
        fs.sb.node_size > 0,
        within_reach(op, root.1),
        orderly(fs, s, root),
        step(fs, generation, owner, s, root, op) is Ok,
    ensures
        ({
            let (t, at) = step(fs, generation, owner, s, root, op)->Ok_0;
            notes(fs, s, t, root, at)
        }),
{
    match op {
        OpV::Insert { key, data } => {
            insert_notes(fs, generation, owner, s, root, Item { key, data });
        },
        OpV::Edit { key, edit } => {
            edit_notes(fs, generation, owner, s, root, key, edit);
        },
        OpV::Append { key, data } => {
            search_reads_contents(fs, s, root, key);
            match find_item(fs, s.pending, root.0, key) {
                Ok(None) => {
                    insert_notes(fs, generation, owner, s, root, Item { key, data });
                },
                Ok(Some(d)) => {
                    let e = EditV::Put { data: d + data, missing: "dir item not found"@ };
                    edit_notes(fs, generation, owner, s, root, key, e);
                },
                Err(_) => {},
            }
        },
    }
}

/// Two changes in a row note what one would.
proof fn notes_twice(
    fs: FsV,
    s: StateV,
    t: StateV,
    u: StateV,
    root: (u64, u8),
    mid: (u64, u8),
    at: (u64, u8),
)
    requires
        confined(fs, s, t, root, mid),
        confined(fs, t, u, mid, at),
        notes(fs, s, t, root, mid),
        notes(fs, t, u, mid, at),
    ensures
        notes(fs, s, u, root, at),
{
    assert forall|a: u64| #[trigger] in_tree(fs, u.pending, at.0, at.1, a) implies noted(u.add, a)
        || (in_tree(fs, s.pending, root.0, root.1, a) && !noted(s.add, a)) by {
        if !noted(u.add, a) {
            assert(in_tree(fs, t.pending, mid.0, mid.1, a));
        }
    }
    assert forall|a: u64|
        !in_tree(fs, s.pending, root.0, root.1, a) && offered(s.space, a as int) == 0
            && #[trigger] noted(s.add, a) implies noted(u.add, a) by {
        assert(noted(t.add, a));
        assert(!in_tree(fs, t.pending, mid.0, mid.1, a));
        assert(offered(t.space, a as int) <= offered(s.space, a as int));
    }
    assert forall|b: u64| #[trigger] frees(u.remove, b) implies frees(s.remove, b) || ((in_tree(
        fs,
        s.pending,
        root.0,
        root.1,
        b,
    ) || offered(s.space, b as int) > 0) && !in_tree(fs, u.pending, at.0, at.1, b) && offered(
        u.space,
        b as int,
    ) == 0) by {
        assert(offered(t.space, b as int) <= offered(s.space, b as int));
        assert(offered(u.space, b as int) <= offered(t.space, b as int));
        if frees(t.remove, b) {
            if !frees(s.remove, b) {
                assert(!in_tree(fs, t.pending, mid.0, mid.1, b));
                assert(!in_tree(fs, u.pending, at.0, at.1, b));
            }
        } else if in_tree(fs, t.pending, mid.0, mid.1, b) {
            assert(in_tree(fs, s.pending, root.0, root.1, b) || offered(s.space, b as int) > 0);
        }
    }
}

/// Operations on a tree, one after the other, note the blocks that they build
/// and the blocks that they give up.
pub proof fn steps_note(
    fs: FsV,
    generation: u64,
    owner: u64,
    s: StateV,
    root: (u64, u8),
    ops: Seq<OpV>,
)
    requires
        fs.sb.node_size > 0,
        orderly(fs, s, root),
        stays_low(fs, generation, owner, s, root, ops),
        steps(fs, generation, owner, s, root, ops) is Ok,
    ensures
        ({
            let (t, r) = steps(fs, generation, owner, s, root, ops)->Ok_0;
            notes(fs, s, t, root, r)
        }),
    decreases ops.len(),
{
    if ops.len() > 0 {
        let front = ops.drop_last();
        steps_note(fs, generation, owner, s, root, front);
        steps_on_map(fs, generation, owner, s, root, front);
        let (t, at) = steps(fs, generation, owner, s, root, front)->Ok_0;
        step_notes(fs, generation, owner, t, at, ops.last());
        step_on_map(fs, generation, owner, t, at, ops.last());
        let (u, r) = step(fs, generation, owner, t, at, ops.last())->Ok_0;
        notes_twice(fs, s, t, u, root, at, r);
    }
}

} // verus!
