//! The blocks that a transaction builds were free when it began, and no two of
//! them share an address.

use vstd::prelude::*;

use crate::error::Fault;
use crate::fs::btrfs::roots::optional_root;
use crate::fs::btrfs::search::find_item;
use crate::fs::btrfs::tree::{
    child_index, Item, Key, NodeV, EXTENT_TREE_OBJECTID, FREE_SPACE_TREE_OBJECTID,
    ROOT_TREE_OBJECTID,
};
use crate::fs::btrfs::volume::{node_at, FsV};
use crate::fs::btrfs::write::converge::{
    adding_ops, closed, closing_round, drained, extent_ops, extent_start, finalized,
    has_space_tree, removal_ops, root_ops, round, settled, space_leaf, space_tree_rewritten,
    space_tree_updated, used_ops, ChangesV, MAX_CONVERGENCE_ROUNDS,
};
use crate::fs::btrfs::write::cow::{
    base_leaf, child_edited, edit_below, grown, insert_below, interior_edited, leaf_groups, place,
    regrow, reusable, spot, tree_edit, tree_insert, Cow, CowV, EditedV, InsertV,
};
use crate::fs::btrfs::write::edit::{edit_items, EditV};
use crate::fs::btrfs::write::grove::{extent_repoint, space_leaf_placed, space_repoint};
use crate::fs::btrfs::write::handout::{
    handed_out_once, lies_in, metadata_is_handed_out, offered, tidy,
};
use crate::fs::btrfs::write::node::{
    emit_leaf, interior_of, interior_used, InteriorEntry, InteriorV, LeafV,
};
use crate::fs::btrfs::write::space::{alloc_meta, free_block, BgV};
use crate::fs::btrfs::write::tree_map::freeing_offers_nothing;
use crate::fs::btrfs::write::workspace::{
    absorbed, claim_all, drop_blocks, edit_step, insert_step, overlaid, owned, recorded, step,
    steps, OpV, StateV,
};

verus! {

/// The blocks at `ks`, of `n` bytes each, were free in `start`, are not free in
/// `space`, and no two of them share an address. Nothing is free in `space` that
/// was not in `start`.
pub open spec fn claimed(start: Seq<BgV>, ks: Set<u64>, space: Seq<BgV>, n: int) -> bool {
    &&& tidy(start)
    &&& ks.finite()
    &&& forall|x: int| #[trigger] offered(space, x) <= offered(start, x)
    &&& forall|a: u64, x: int| #[trigger]
        ks.contains(a) && a <= x < a + n ==> #[trigger] offered(start, x) == 1 && offered(space, x)
            == 0
    &&& forall|a: u64, b: u64| #[trigger]
        ks.contains(a) && #[trigger] ks.contains(b) && a != b ==> a + n <= b || b + n <= a
}

/// Fewer blocks, and no more free space.
pub proof fn claimed_still(
    start: Seq<BgV>,
    ks: Set<u64>,
    space: Seq<BgV>,
    n: int,
    ls: Set<u64>,
    rest: Seq<BgV>,
)
    requires
        claimed(start, ks, space, n),
        ls.subset_of(ks),
        forall|x: int| #[trigger] offered(rest, x) == offered(space, x),
    ensures
        claimed(start, ls, rest, n),
{
    assert(ls.finite()) by {
        vstd::set_lib::lemma_set_subset_finite(ks, ls);
    }
    assert forall|x: int| #[trigger] offered(rest, x) <= offered(start, x) by {
        assert(offered(rest, x) == offered(space, x));
    }
    assert forall|a: u64, x: int| #[trigger]
        ls.contains(a) && a <= x < a + n implies #[trigger] offered(start, x) == 1 && offered(
        rest,
        x,
    ) == 0 by {
        assert(ks.contains(a));
        assert(offered(rest, x) == offered(space, x));
    }
    assert forall|a: u64, b: u64| #[trigger]
        ls.contains(a) && #[trigger] ls.contains(b) && a != b implies a + n <= b || b + n <= a by {
        assert(ks.contains(a) && ks.contains(b));
    }
}

/// A new block is claimed besides the others.
proof fn claims_block(start: Seq<BgV>, ks: Set<u64>, space: Seq<BgV>, size: u32, owner: u64)
    requires
        claimed(start, ks, space, size as int),
    ensures
        alloc_meta(space, size, owner) matches Some((b, rest)) ==> claimed(
            start,
            ks.insert(b),
            rest,
            size as int,
        ),
{
    if let Some((b, rest)) = alloc_meta(space, size, owner) {
        let n = size as int;
        let ls = ks.insert(b);
        assert forall|x: int| #[trigger] offered(space, x) <= 1 by {
            assert(offered(start, x) <= 1);
        }
        metadata_is_handed_out(space, size, owner);
        handed_out_once(space, rest, b as int, n);
        assert forall|x: int| #[trigger] offered(rest, x) <= offered(start, x) by {
            assert(offered(space, x) <= offered(start, x));
            if lies_in(x, b as int, n) {
                assert(offered(rest, x) == 0);
            } else {
                assert(offered(rest, x) == offered(space, x));
            }
        }
        assert forall|a: u64, x: int| #[trigger]
            ls.contains(a) && a <= x < a + n implies #[trigger] offered(start, x) == 1 && offered(
            rest,
            x,
        ) == 0 by {
            if a == b {
                assert(lies_in(x, b as int, n));
                assert(offered(space, x) == 1);
                assert(offered(rest, x) == 0);
                assert(offered(start, x) <= 1);
            } else {
                assert(ks.contains(a));
                assert(offered(space, x) == 0);
                assert(offered(rest, x) <= offered(space, x)) by {
                    if lies_in(x, b as int, n) {
                        assert(offered(rest, x) == 0);
                    }
                }
            }
        }
        assert forall|a: u64, c: u64| #[trigger]
            ls.contains(a) && #[trigger] ls.contains(c) && a != c implies a + n <= c || c + n
            <= a by {
            if a != b && c != b {
                assert(ks.contains(a) && ks.contains(c));
            } else {
                let o = if a == b {
                    c
                } else {
                    a
                };
                assert(ks.contains(o));
                if !(o + n <= b || b + n <= o) {
                    let x = if o < b {
                        b as int
                    } else {
                        o as int
                    };
                    assert(lies_in(x, b as int, n));
                    assert(offered(space, x) == 1);
                    assert(offered(start, x) == 1 && offered(space, x) == 0);
                }
            }
        }
    }
}

/// The blocks of a transaction so far, and those that a change writes.
pub open spec fn blocks_with(p: Map<u64, Seq<u8>>, emitted: Seq<(u64, Seq<u8>)>) -> Set<u64>
    decreases emitted.len(),
{
    if emitted.len() == 0 {
        p.dom()
    } else {
        blocks_with(p, emitted.drop_last()).insert(emitted.last().0)
    }
}

proof fn blocks_with_grows(p: Map<u64, Seq<u8>>, emitted: Seq<(u64, Seq<u8>)>, a: u64)
    ensures
        p.contains_key(a) ==> blocks_with(p, emitted).contains(a),
    decreases emitted.len(),
{
    if emitted.len() > 0 {
        blocks_with_grows(p, emitted.drop_last(), a);
    }
}

/// A change so far has claimed what it writes.
spec fn ground(c: Cow, start: Seq<BgV>, emitted: Seq<(u64, Seq<u8>)>, space: Seq<BgV>) -> bool {
    claimed(start, blocks_with(c.pending, emitted), space, c.fs.sb.node_size as int)
}

/// Writing a node at its spot keeps to what is claimed.
proof fn spot_claims(
    c: Cow,
    start: Seq<BgV>,
    emitted: Seq<(u64, Seq<u8>)>,
    space: Seq<BgV>,
    level: u8,
    reuse: Option<u64>,
    replaces: Option<u64>,
    raw: Seq<u8>,
)
    requires
        ground(c, start, emitted, space),
        reuse matches Some(b) ==> c.pending.contains_key(b),
    ensures
        spot(c, space, level, reuse, replaces) matches Some(s) ==> ground(
            c,
            start,
            emitted.push((s.target, raw)),
            s.space,
        ),
{
    if let Some(s) = spot(c, space, level, reuse, replaces) {
        let more = emitted.push((s.target, raw));
        assert(more.drop_last() =~= emitted);
        match reuse {
            Some(b) => {
                blocks_with_grows(c.pending, emitted, b);
                assert(blocks_with(c.pending, more) =~= blocks_with(c.pending, emitted));
            },
            None => {
                claims_block(
                    start,
                    blocks_with(c.pending, emitted),
                    space,
                    c.fs.sb.node_size,
                    c.owner,
                );
            },
        }
    }
}

proof fn place_claims(
    c: Cow,
    start: Seq<BgV>,
    space: Seq<BgV>,
    h: LeafV,
    groups: Seq<Seq<Item>>,
    reuse: Option<u64>,
    bytenr: u64,
)
    requires
        ground(c, start, Seq::empty(), space),
        reuse matches Some(b) ==> c.pending.contains_key(b),
    ensures
        place(c, space, h, groups, reuse, bytenr) matches Ok(p) ==> ground(
            c,
            start,
            p.emitted,
            p.space,
        ),
    decreases groups.len(),
{
    if groups.len() > 0 {
        place_claims(c, start, space, h, groups.drop_last(), reuse, bytenr);
        if let Ok(q) = place(c, space, h, groups, reuse, bytenr) {
            let p = place(c, space, h, groups.drop_last(), reuse, bytenr)->Ok_0;
            let first = groups.len() == 1;
            spot_claims(
                c,
                start,
                p.emitted,
                p.space,
                0,
                if first {
                    reuse
                } else {
                    None
                },
                if first {
                    Some(bytenr)
                } else {
                    None
                },
                q.emitted.last().1,
            );
        }
    }
}

proof fn regrow_claims(
    c: Cow,
    start: Seq<BgV>,
    h: InteriorV,
    i: int,
    child: InsertV,
    level: u8,
    reuse: Option<u64>,
    bytenr: u64,
)
    requires
        ground(c, start, child.emitted, child.space),
        reuse matches Some(b) ==> c.pending.contains_key(b),
    ensures
        regrow(c, h, i, child, level, reuse, bytenr) matches Ok(p) ==> ground(
            c,
            start,
            p.emitted,
            p.space,
        ),
{
    let entries = grown(h.entries, i, child.heads, c.generation);
    if let Ok(p) = regrow(c, h, i, child, level, reuse, bytenr) {
        if child.heads.len() <= 1 || interior_used(entries.len()) <= c.fs.sb.node_size {
            spot_claims(
                c,
                start,
                child.emitted,
                child.space,
                level,
                reuse,
                Some(bytenr),
                p.emitted.last().1,
            );
        } else {
            let n = child.emitted.len() as int;
            let lraw = p.emitted[n].1;
            let rraw = p.emitted[n + 1].1;
            let r = spot(c, child.space, level, None, None)->Some_0;
            spot_claims(c, start, child.emitted, child.space, level, None, None, rraw);
            let mid = child.emitted.push((r.target, rraw));
            spot_claims(c, start, mid, r.space, level, reuse, Some(bytenr), lraw);
            let l = spot(c, r.space, level, reuse, Some(bytenr))->Some_0;
            let one = mid.push((l.target, lraw));
            let two = child.emitted.push((l.target, lraw)).push((r.target, rraw));
            assert(p.emitted =~= two);
            assert(one.drop_last() =~= mid);
            assert(mid.drop_last() =~= child.emitted);
            assert(two.drop_last() =~= child.emitted.push((l.target, lraw)));
            assert(two.drop_last().drop_last() =~= child.emitted);
            assert(blocks_with(c.pending, one) =~= blocks_with(c.pending, two)) by {
                let k = blocks_with(c.pending, child.emitted);
                assert(blocks_with(c.pending, mid) == k.insert(r.target));
                assert(blocks_with(c.pending, one) == k.insert(r.target).insert(l.target));
                assert(blocks_with(c.pending, two.drop_last()) == k.insert(l.target));
                assert(blocks_with(c.pending, two) == k.insert(l.target).insert(r.target));
            }
        }
    }
}

proof fn insert_claims(
    c: Cow,
    start: Seq<BgV>,
    space: Seq<BgV>,
    bytenr: u64,
    level: u8,
    it: Item,
)
    requires
        ground(c, start, Seq::empty(), space),
    ensures
        insert_below(c, space, bytenr, level, it) matches Ok(p) ==> ground(
            c,
            start,
            p.emitted,
            p.space,
        ),
    decreases level,
{
    reveal(insert_below);
    if let Ok(node) = node_at(c.fs, c.pending, bytenr) {
        let reuse = reusable(c, node, bytenr);
        if level == 0 || node.nr_items() == 0 {
            let h = base_leaf(c, node);
            if let Ok(groups) = leaf_groups(h.items, it, c.fs.sb.node_size) {
                place_claims(c, start, space, h, groups, reuse, bytenr);
            }
        } else if node.level != 0 {
            let i = child_index(node.ptrs, it.key);
            let b = node.ptrs[i].blockptr;
            insert_claims(c, start, space, b, (level - 1) as u8, it);
            if let Ok(child) = insert_below(c, space, b, (level - 1) as u8, it) {
                regrow_claims(
                    c,
                    start,
                    interior_of(node, c.fs.sb.csum_type),
                    i,
                    child,
                    level,
                    reuse,
                    bytenr,
                );
            }
        }
    }
}

proof fn tree_insert_claims(
    c: Cow,
    start: Seq<BgV>,
    space: Seq<BgV>,
    root: u64,
    level: u8,
    it: Item,
)
    requires
        ground(c, start, Seq::empty(), space),
    ensures
        tree_insert(c, space, root, level, it) matches Ok(p) ==> ground(
            c,
            start,
            p.emitted,
            p.space,
        ),
{
    reveal(tree_insert);
    insert_claims(c, start, space, root, level, it);
    if let Ok(p) = tree_insert(c, space, root, level, it) {
        let d = insert_below(c, space, root, level, it)->Ok_0;
        let node = node_at(c.fs, c.pending, root)->Ok_0;
        if d.heads.len() > 1 {
            let above = if node.nr_items() == 0 {
                1u8
            } else {
                level.saturating_add(1)
            };
            spot_claims(c, start, d.emitted, d.space, above, None, None, p.emitted.last().1);
        }
    }
}

proof fn edit_claims(
    c: Cow,
    start: Seq<BgV>,
    space: Seq<BgV>,
    bytenr: u64,
    level: u8,
    key: Key,
    edit: EditV,
    is_root: bool,
)
    requires
        ground(c, start, Seq::empty(), space),
    ensures
        edit_below(c, space, bytenr, level, key, edit, is_root) matches Ok(p) ==> ground(
            c,
            start,
            p.emitted,
            p.space,
        ),
    decreases level,
{
    reveal(edit_below);
    if let Ok(p) = edit_below(c, space, bytenr, level, key, edit, is_root) {
        let node = node_at(c.fs, c.pending, bytenr)->Ok_0;
        let reuse = reusable(c, node, bytenr);
        if level == 0 {
            let items = edit_items(node.items, key, edit)->Ok_0;
            if !(items.len() == 0 && !is_root) {
                spot_claims(
                    c,
                    start,
                    Seq::empty(),
                    space,
                    0,
                    reuse,
                    Some(bytenr),
                    p.emitted.last().1,
                );
                let s = spot(c, space, 0, reuse, Some(bytenr))->Some_0;
                assert(p.emitted =~= Seq::empty().push((s.target, p.emitted.last().1)));
            }
        } else {
            let i = child_index(node.ptrs, key);
            let b = node.ptrs[i].blockptr;
            edit_claims(c, start, space, b, (level - 1) as u8, key, edit, false);
            let child = edit_below(c, space, b, (level - 1) as u8, key, edit, false)->Ok_0;
            let entries = child_edited(
                interior_of(node, c.fs.sb.csum_type).entries,
                i,
                child.node,
                c.generation,
            );
            interior_claims(c, start, p, child, entries, level, reuse, bytenr, key, is_root, node);
        }
    }
}

proof fn interior_claims(
    c: Cow,
    start: Seq<BgV>,
    p: EditedV,
    child: EditedV,
    entries: Seq<InteriorEntry>,
    level: u8,
    reuse: Option<u64>,
    bytenr: u64,
    key: Key,
    is_root: bool,
    node: NodeV,
)
    requires
        ground(c, start, child.emitted, child.space),
        reuse matches Some(b) ==> c.pending.contains_key(b),
        interior_edited(c, node, entries, child, level, reuse, bytenr, key, is_root) == Ok::<
            EditedV,
            Fault,
        >(p),
    ensures
        ground(c, start, p.emitted, p.space),
{
    if entries.len() == 0 && !is_root {
    } else if entries.len() == 0 {
        let (b, rest) = alloc_meta(child.space, c.fs.sb.node_size, c.owner)->Some_0;
        claims_block(
            start,
            blocks_with(c.pending, child.emitted),
            child.space,
            c.fs.sb.node_size,
            c.owner,
        );
        assert(p.emitted.drop_last() =~= child.emitted);
    } else if is_root && entries.len() == 1 {
    } else {
        spot_claims(
            c,
            start,
            child.emitted,
            child.space,
            level,
            reuse,
            Some(bytenr),
            p.emitted.last().1,
        );
    }
}

/// A state whose blocks are claimed.
pub open spec fn all_claimed(fs: FsV, start: Seq<BgV>, s: StateV) -> bool {
    claimed(start, s.pending.dom(), s.space, fs.sb.node_size as int)
}

proof fn dropping_claims(fs: FsV, s: StateV, freed: Seq<(u64, u8)>)
    ensures
        ({
            let d = drop_blocks(s, freed, fs.sb.node_size);
            &&& d.pending.dom().subset_of(s.pending.dom())
            &&& forall|x: int| #[trigger] offered(d.space, x) == offered(s.space, x)
        }),
    decreases freed.len(),
{
    if freed.len() > 0 {
        dropping_claims(fs, s, freed.drop_last());
        let d = drop_blocks(s, freed.drop_last(), fs.sb.node_size);
        let e = drop_blocks(s, freed, fs.sb.node_size);
        assert forall|x: int| #[trigger] offered(e.space, x) == offered(s.space, x) by {
            freeing_offers_nothing(d.space, freed.last().0, fs.sb.node_size, x);
            assert(offered(d.space, x) == offered(s.space, x));
        }
    }
}

proof fn overlaid_dom(p: Map<u64, Seq<u8>>, q: Map<u64, Seq<u8>>, emitted: Seq<(u64, Seq<u8>)>)
    requires
        p.dom().subset_of(q.dom()),
    ensures
        overlaid(p, emitted).dom().subset_of(blocks_with(q, emitted)),
    decreases emitted.len(),
{
    if emitted.len() > 0 {
        overlaid_dom(p, q, emitted.drop_last());
    }
}

proof fn booking_claims(fs: FsV, start: Seq<BgV>, c: Cow, s: StateV, r: CowV, owner: u64)
    requires
        c.fs == fs,
        c.pending == s.pending,
        ground(c, start, r.emitted, r.space),
    ensures
        absorbed(s, r, fs.sb.node_size, owner) matches Ok((t, _)) ==> all_claimed(fs, start, t),
{
    if let Ok((t, _)) = absorbed(s, r, fs.sb.node_size, owner) {
        let m = match s.ledger {
            None => s,
            Some(x) => StateV {
                ledger: Some(claim_all(x, r.allocated, fs.sb.node_size)->Some_0),
                ..s
            },
        };
        assert(t == recorded(m, r, fs.sb.node_size, owner));
        let a = StateV {
            add: m.add + owned(r.allocated, owner),
            space: r.space,
            ..m
        };
        dropping_claims(fs, a, r.freed);
        let d = drop_blocks(a, r.freed, fs.sb.node_size);
        overlaid_dom(d.pending, s.pending, r.emitted);
        claimed_still(
            start,
            blocks_with(s.pending, r.emitted),
            r.space,
            fs.sb.node_size as int,
            t.pending.dom(),
            t.space,
        );
    }
}

proof fn step_claims(
    fs: FsV,
    start: Seq<BgV>,
    generation: u64,
    owner: u64,
    s: StateV,
    root: (u64, u8),
    op: OpV,
)
    requires
        all_claimed(fs, start, s),
    ensures
        step(fs, generation, owner, s, root, op) matches Ok((t, _)) ==> all_claimed(fs, start, t),
{
    match op {
        OpV::Insert { key, data } => {
            insert_step_claims(fs, start, generation, owner, s, root, Item { key, data });
        },
        OpV::Edit { key, edit } => {
            edit_step_claims(fs, start, generation, owner, s, root, key, edit);
        },
        OpV::Append { key, data } => {
            match find_item(fs, s.pending, root.0, key) {
                Ok(None) => {
                    insert_step_claims(fs, start, generation, owner, s, root, Item { key, data });
                },
                Ok(Some(d)) => {
                    edit_step_claims(
                        fs,
                        start,
                        generation,
                        owner,
                        s,
                        root,
                        key,
                        EditV::Put { data: d + data, missing: "dir item not found"@ },
                    );
                },
                Err(_) => {},
            }
        },
    }
}

proof fn insert_step_claims(
    fs: FsV,
    start: Seq<BgV>,
    generation: u64,
    owner: u64,
    s: StateV,
    root: (u64, u8),
    it: Item,
)
    requires
        all_claimed(fs, start, s),
    ensures
        insert_step(fs, generation, owner, s, root, it) matches Ok((t, _)) ==> all_claimed(
            fs,
            start,
            t,
        ),
{
    let c = Cow { fs, pending: s.pending, owner, generation };
    tree_insert_claims(c, start, s.space, root.0, root.1, it);
    if let Ok(r) = tree_insert(c, s.space, root.0, root.1, it) {
        booking_claims(fs, start, c, s, r, owner);
    }
}

proof fn edit_step_claims(
    fs: FsV,
    start: Seq<BgV>,
    generation: u64,
    owner: u64,
    s: StateV,
    root: (u64, u8),
    key: Key,
    edit: EditV,
)
    requires
        all_claimed(fs, start, s),
    ensures
        edit_step(fs, generation, owner, s, root, key, edit) matches Ok((t, _)) ==> all_claimed(
            fs,
            start,
            t,
        ),
{
    let c = Cow { fs, pending: s.pending, owner, generation };
    edit_claims(c, start, s.space, root.0, root.1, key, edit, true);
    if let Ok(r) = tree_edit(c, s.space, root.0, root.1, key, edit) {
        assert(ground(c, start, r.emitted, r.space)) by {
            reveal(tree_edit);
        }
        booking_claims(fs, start, c, s, r, owner);
    }
}

/// Operations on a tree build blocks out of free space, each apart from all
/// others of the transaction.
pub proof fn steps_claim(
    fs: FsV,
    start: Seq<BgV>,
    generation: u64,
    owner: u64,
    s: StateV,
    root: (u64, u8),
    ops: Seq<OpV>,
)
    requires
        all_claimed(fs, start, s),
    ensures
        steps(fs, generation, owner, s, root, ops) matches Ok((t, _)) ==> all_claimed(fs, start, t),
    decreases ops.len(),
{
    if ops.len() > 0 {
        steps_claim(fs, start, generation, owner, s, root, ops.drop_last());
        if let Ok((t, r)) = steps(fs, generation, owner, s, root, ops.drop_last()) {
            step_claims(fs, start, generation, owner, t, r, ops.last());
        }
    }
}

proof fn round_claims(fs: FsV, start: Seq<BgV>, generation: u64, s: StateV, extent: (u64, u8))
    requires
        all_claimed(fs, start, s),
    ensures
        round(fs, generation, s, extent) matches Ok((t, _)) ==> all_claimed(fs, start, t),
{
    reveal(round);
    let a = StateV { remove: Seq::empty(), ..s };
    steps_claim(
        fs,
        start,
        generation,
        EXTENT_TREE_OBJECTID,
        a,
        extent,
        removal_ops(s.remove),
    );
    if let Ok((t, x)) = steps(
        fs,
        generation,
        EXTENT_TREE_OBJECTID,
        a,
        extent,
        removal_ops(s.remove),
    ) {
        steps_claim(
            fs,
            start,
            generation,
            EXTENT_TREE_OBJECTID,
            StateV { add: Seq::empty(), ..t },
            x,
            adding_ops(t.add, generation),
        );
    }
}

proof fn drained_claims(
    fs: FsV,
    start: Seq<BgV>,
    generation: u64,
    s: StateV,
    extent: (u64, u8),
    rounds: nat,
)
    requires
        all_claimed(fs, start, s),
    ensures
        drained(fs, generation, s, extent, rounds) matches Ok((t, _)) ==> all_claimed(fs, start, t),
    decreases rounds,
{
    if rounds > 0 && !settled(s) {
        round_claims(fs, start, generation, s, extent);
        if let Ok((t, x)) = round(fs, generation, s, extent) {
            drained_claims(fs, start, generation, t, x, (rounds - 1) as nat);
        }
    }
}

proof fn closing_claims(
    fs: FsV,
    start: Seq<BgV>,
    generation: u64,
    s: StateV,
    root: (u64, u8),
    extent: (u64, u8),
)
    requires
        all_claimed(fs, start, s),
    ensures
        closing_round(fs, generation, s, root, extent) matches Ok((t, _, _)) ==> all_claimed(
            fs,
            start,
            t,
        ),
{
    reveal(closing_round);
    round_claims(fs, start, generation, s, extent);
    if let Ok((t, x)) = round(fs, generation, s, extent) {
        steps_claim(fs, start, generation, EXTENT_TREE_OBJECTID, t, x, used_ops(t.space));
        if let Ok((u, y)) = steps(
            fs,
            generation,
            EXTENT_TREE_OBJECTID,
            t,
            x,
            used_ops(t.space),
        ) {
            steps_claim(
                fs,
                start,
                generation,
                ROOT_TREE_OBJECTID,
                u,
                root,
                extent_repoint(generation, y),
            );
        }
    }
}

proof fn closed_claims(
    fs: FsV,
    start: Seq<BgV>,
    generation: u64,
    s: StateV,
    root: (u64, u8),
    extent: (u64, u8),
    rounds: nat,
)
    requires
        all_claimed(fs, start, s),
    ensures
        closed(fs, generation, s, root, extent, rounds) matches Ok((t, _)) ==> all_claimed(
            fs,
            start,
            t,
        ),
    decreases rounds,
{
    if rounds > 0 {
        closing_claims(fs, start, generation, s, root, extent);
        if let Ok((t, r, x)) = closing_round(fs, generation, s, root, extent) {
            if !settled(t) {
                closed_claims(fs, start, generation, t, r, x, (rounds - 1) as nat);
            }
        }
    }
}

proof fn space_tree_claims(
    fs: FsV,
    start: Seq<BgV>,
    generation: u64,
    s: StateV,
    root: (u64, u8),
    seen: bool,
)
    requires
        all_claimed(fs, start, s),
    ensures
        space_tree_updated(fs, generation, s, root, seen) matches Ok((t, _)) ==> all_claimed(
            fs,
            start,
            t,
        ),
{
    if let Ok((u, _)) = space_tree_updated(fs, generation, s, root, seen) {
        if has_space_tree(fs) {
            if let Some(old_root) = optional_root(fs, FREE_SPACE_TREE_OBJECTID, seen) {
                reveal(space_tree_rewritten);
                let gone = old_root.bytenr;
                let size = fs.sb.node_size;
                let (target, rest) = alloc_meta(s.space, size, 0)->Some_0;
                claims_block(start, s.pending.dom(), s.space, size, 0);
                let space = free_block(rest, gone, size);
                let node = node_at(fs, s.pending, gone)->Ok_0;
                let raw = emit_leaf(
                    space_leaf(
                        fs,
                        generation,
                        target,
                        node.flags,
                        node.chunk_tree_uuid,
                        space,
                    ),
                    size,
                )->Ok_0;
                let t = space_leaf_placed(s, target, raw, space, gone);
                assert forall|x: int| #[trigger] offered(space, x) == offered(rest, x) by {
                    freeing_offers_nothing(rest, gone, size, x);
                }
                claimed_still(
                    start,
                    s.pending.dom().insert(target),
                    rest,
                    size as int,
                    t.pending.dom(),
                    space,
                );
                steps_claim(
                    fs,
                    start,
                    generation,
                    ROOT_TREE_OBJECTID,
                    t,
                    root,
                    space_repoint(generation, target),
                );
            }
        }
    }
}

/// A finished transaction writes only blocks that were free when it began, and
/// no two of them share an address.
pub proof fn finish_claims(fs: FsV, start: Seq<BgV>, c: ChangesV, s: StateV, fst: bool)
    requires
        all_claimed(fs, start, s),
    ensures
        finalized(fs, c, s, fst) matches Ok(t) ==> claimed(
            start,
            t.blocks.dom(),
            t.space->Some_0,
            fs.sb.node_size as int,
        ),
{
    reveal(finalized);
    if finalized(fs, c, s, fst) is Ok {
        let root = (fs.sb.root, fs.sb.root_level);
        let g = c.generation;
        let n = MAX_CONVERGENCE_ROUNDS as nat;
        let x0 = extent_start(fs, c)->Ok_0;
        steps_claim(fs, start, g, ROOT_TREE_OBJECTID, s, root, root_ops(fs, c));
        let (s1, r1) = steps(fs, g, ROOT_TREE_OBJECTID, s, root, root_ops(fs, c))->Ok_0;
        steps_claim(fs, start, g, EXTENT_TREE_OBJECTID, s1, x0, extent_ops(c));
        let (s2, x2) = steps(fs, g, EXTENT_TREE_OBJECTID, s1, x0, extent_ops(c))->Ok_0;
        drained_claims(fs, start, g, s2, x2, n);
        let (s3, x3) = drained(fs, g, s2, x2, n)->Ok_0;
        space_tree_claims(fs, start, g, s3, r1, fst);
        let (s4, r4) = space_tree_updated(fs, g, s3, r1, fst)->Ok_0;
        closed_claims(fs, start, g, s4, r4, x3, n);
    }
}

} // verus!
