//! A changed tree is made of blocks of the old one and of newly allocated ones.

use vstd::prelude::*;

use crate::error::Fault;
use crate::fs::btrfs::tree::{child_index, child_index_range, parse_node, Item, Key, NodeV};
use crate::fs::btrfs::volume::{node_at, FsV};
use crate::fs::btrfs::write::booking::{
    carries, emits, emits_pushed, frees, frees_joined, frees_one, header_of_node, keeps, keys_end,
};
use crate::fs::btrfs::write::contents::{
    bound, in_row, in_tree, sound, sound_interior, tree_over_row,
};
use crate::fs::btrfs::write::cow::{
    base_leaf, child_edited, edit_below, entries_for, grown, insert_below, interior_edited,
    leaf_edited, leaf_groups, place, regrow, reusable, root_header, spot, tree_edit, tree_insert,
    write_interior, Cow, EditedV, InsertV,
};
use crate::fs::btrfs::write::edit::{edit_items, EditV};
use crate::fs::btrfs::write::node::{
    emit_leaf, interior_of, interior_used, leaf_of, InteriorEntry, InteriorV, LeafV,
};
use crate::fs::btrfs::write::roundtrip::{interior_round_trip, leaf_round_trip, ptr_of};
use crate::fs::btrfs::write::space::{alloc_meta, BgV};
use crate::sort::{stable_sort, stable_sort_sorts};

verus! {

/// Whether block `x` is written by a change, or part of the tree of `l` at `b`
/// before it.
pub open spec fn known(c: Cow, b: u64, l: u8, emitted: Seq<(u64, Seq<u8>)>, x: u64) -> bool {
    emits(emitted, x) || in_tree(c.fs, c.pending, b, l, x)
}

/// All children of a node are known.
pub open spec fn points_at_known(
    c: Cow,
    b: u64,
    l: u8,
    emitted: Seq<(u64, Seq<u8>)>,
    n: NodeV,
) -> bool {
    forall|j: int|
        0 <= j < n.ptrs.len() ==> known(c, b, l, emitted, (#[trigger] n.ptrs[j]).blockptr)
}

/// All children of a written node are known.
pub open spec fn raw_points_at_known(
    c: Cow,
    b: u64,
    l: u8,
    emitted: Seq<(u64, Seq<u8>)>,
    w: (u64, Seq<u8>),
) -> bool {
    parse_node(w.1, w.0, c.fs.sb.csum_type, c.fs.sb.metadata_uuid) matches Ok(n) ==> points_at_known(
        c,
        b,
        l,
        emitted,
        n,
    )
}

/// What a change of the tree at `b` writes hangs together: all children of
/// written nodes are known, and what is written was allocated or is a block of
/// the tree.
pub open spec fn linked(
    c: Cow,
    b: u64,
    l: u8,
    emitted: Seq<(u64, Seq<u8>)>,
    allocated: Seq<(u64, u8)>,
) -> bool {
    &&& forall|i: int|
        0 <= i < emitted.len() ==> raw_points_at_known(c, b, l, emitted, #[trigger] emitted[i])
    &&& forall|a: u64| #[trigger]
        emits(emitted, a) ==> frees(allocated, a) || in_tree(c.fs, c.pending, b, l, a)
}

/// All heads are written.
pub open spec fn heads_written(heads: Seq<(Key, u64)>, emitted: Seq<(u64, Seq<u8>)>) -> bool {
    forall|i: int| 0 <= i < heads.len() ==> emits(emitted, (#[trigger] heads[i]).1)
}

/// What hangs together below a child hangs together below its parent.
proof fn linked_above(
    c: Cow,
    cb: u64,
    cl: u8,
    b: u64,
    l: u8,
    emitted: Seq<(u64, Seq<u8>)>,
    allocated: Seq<(u64, u8)>,
)
    requires
        linked(c, cb, cl, emitted, allocated),
        forall|a: u64| #[trigger]
            in_tree(c.fs, c.pending, cb, cl, a) ==> in_tree(c.fs, c.pending, b, l, a),
    ensures
        linked(c, b, l, emitted, allocated),
{
    assert forall|i: int| 0 <= i < emitted.len() implies raw_points_at_known(
        c,
        b,
        l,
        emitted,
        #[trigger] emitted[i],
    ) by {
        assert(raw_points_at_known(c, cb, cl, emitted, emitted[i]));
    }
}

/// One more node is written.
proof fn linked_more(
    c: Cow,
    b: u64,
    l: u8,
    emitted: Seq<(u64, Seq<u8>)>,
    allocated: Seq<(u64, u8)>,
    w: (u64, Seq<u8>),
    more: Seq<(u64, u8)>,
)
    requires
        linked(c, b, l, emitted, allocated),
        raw_points_at_known(c, b, l, emitted.push(w), w),
        frees(more, w.0) || in_tree(c.fs, c.pending, b, l, w.0),
    ensures
        linked(c, b, l, emitted.push(w), allocated + more),
        emits(emitted.push(w), w.0),
        forall|a: u64| emits(emitted, a) ==> #[trigger] emits(emitted.push(w), a),
{
    let all = emitted.push(w);
    assert(w == (w.0, w.1));
    assert forall|a: u64| #[trigger] emits(all, a) == (emits(emitted, a) || a == w.0) by {
        emits_pushed(emitted, w.0, w.1, a);
    }
    assert forall|i: int| 0 <= i < all.len() implies raw_points_at_known(
        c,
        b,
        l,
        all,
        #[trigger] all[i],
    ) by {
        if i < emitted.len() {
            assert(all[i] == emitted[i]);
            assert(raw_points_at_known(c, b, l, emitted, emitted[i]));
            match parse_node(all[i].1, all[i].0, c.fs.sb.csum_type, c.fs.sb.metadata_uuid) {
                Ok(n) => {
                    assert forall|j: int| 0 <= j < n.ptrs.len() implies known(
                        c,
                        b,
                        l,
                        all,
                        (#[trigger] n.ptrs[j]).blockptr,
                    ) by {
                        assert(known(c, b, l, emitted, n.ptrs[j].blockptr));
                        assert(emits(all, n.ptrs[j].blockptr) == (emits(
                            emitted,
                            n.ptrs[j].blockptr,
                        ) || n.ptrs[j].blockptr == w.0));
                    }
                },
                Err(_) => {},
            }
        }
    }
    assert forall|a: u64| #[trigger] emits(all, a) implies frees(allocated + more, a) || in_tree(
        c.fs,
        c.pending,
        b,
        l,
        a,
    ) by {
        frees_joined(allocated, more, a);
    }
}

proof fn linked_nothing(c: Cow, b: u64, l: u8)
    ensures
        linked(c, b, l, Seq::empty(), Seq::empty()),
{
}

/// A written leaf has no children.
proof fn leaf_points_at_known(
    c: Cow,
    b: u64,
    l: u8,
    emitted: Seq<(u64, Seq<u8>)>,
    leaf: LeafV,
    raw: Seq<u8>,
)
    requires
        emit_leaf(leaf, c.fs.sb.node_size) == Ok::<Seq<u8>, Fault>(raw),
        leaf.csum_type == c.fs.sb.csum_type,
        leaf.metadata_uuid == c.fs.sb.metadata_uuid,
        leaf.metadata_uuid.len() == 16,
        leaf.chunk_tree_uuid.len() == 16,
    ensures
        raw_points_at_known(c, b, l, emitted, (leaf.bytenr, raw)),
{
    leaf_round_trip(leaf, c.fs.sb.node_size);
}

/// A written interior node has the children of its entries.
proof fn interior_points_at_known(
    c: Cow,
    b: u64,
    l: u8,
    emitted: Seq<(u64, Seq<u8>)>,
    h: InteriorV,
    target: u64,
    entries: Seq<InteriorEntry>,
    raw: Seq<u8>,
)
    requires
        write_interior(c, h, target, entries) == Ok::<Seq<u8>, Fault>(raw),
        h.level > 0,
        h.csum_type == c.fs.sb.csum_type,
        h.metadata_uuid == c.fs.sb.metadata_uuid,
        h.metadata_uuid.len() == 16,
        h.chunk_tree_uuid.len() == 16,
        forall|k: int|
            0 <= k < entries.len() ==> known(c, b, l, emitted, (#[trigger] entries[k]).blockptr),
    ensures
        raw_points_at_known(c, b, l, emitted, (target, raw)),
{
    let n = InteriorV {
        bytenr: target,
        generation: c.generation,
        owner: c.owner,
        entries,
        ..h
    };
    interior_round_trip(n, c.fs.sb.node_size);
    let ptrs = entries.map_values(|e: InteriorEntry| ptr_of(e));
    assert forall|j: int| 0 <= j < ptrs.len() implies known(
        c,
        b,
        l,
        emitted,
        (#[trigger] ptrs[j]).blockptr,
    ) by {
        assert(ptrs[j].blockptr == entries[j].blockptr);
    }
}

/// Where a node is written was allocated, or is the block that it replaces.
proof fn spot_known(c: Cow, space: Seq<BgV>, level: u8, reuse: Option<u64>, replaces: Option<u64>)
    ensures
        spot(c, space, level, reuse, replaces) matches Some(s) ==> (match reuse {
            Some(x) => s.target == x && s.allocated.len() == 0,
            None => frees(s.allocated, s.target),
        }),
{
    match spot(c, space, level, reuse, replaces) {
        Some(s) => {
            if reuse is None {
                frees_one(s.target, level, s.target);
            }
        },
        None => {},
    }
}

proof fn place_linked(
    c: Cow,
    space: Seq<BgV>,
    h: LeafV,
    groups: Seq<Seq<Item>>,
    reuse: Option<u64>,
    b: u64,
    l: u8,
)
    requires
        place(c, space, h, groups, reuse, b) is Ok,
        reuse matches Some(x) ==> x == b,
        h.csum_type == c.fs.sb.csum_type,
        h.metadata_uuid == c.fs.sb.metadata_uuid,
        h.metadata_uuid.len() == 16,
        h.chunk_tree_uuid.len() == 16,
    ensures
        ({
            let d = place(c, space, h, groups, reuse, b)->Ok_0;
            linked(c, b, l, d.emitted, d.allocated) && heads_written(d.heads, d.emitted)
        }),
    decreases groups.len(),
{
    if groups.len() == 0 {
        linked_nothing(c, b, l);
    } else {
        place_linked(c, space, h, groups.drop_last(), reuse, b, l);
        let p = place(c, space, h, groups.drop_last(), reuse, b)->Ok_0;
        let d = place(c, space, h, groups, reuse, b)->Ok_0;
        let first = groups.len() == 1;
        let again = if first {
            reuse
        } else {
            None
        };
        let instead = if first {
            Some(b)
        } else {
            None
        };
        let s = spot(c, p.space, 0, again, instead)->Some_0;
        spot_known(c, p.space, 0, again, instead);
        let leaf = LeafV {
            bytenr: s.target,
            generation: c.generation,
            owner: c.owner,
            items: groups.last(),
            ..h
        };
        let raw = emit_leaf(leaf, c.fs.sb.node_size)->Ok_0;
        leaf_points_at_known(c, b, l, p.emitted.push((s.target, raw)), leaf, raw);
        assert(in_tree(c.fs, c.pending, b, l, b));
        linked_more(c, b, l, p.emitted, p.allocated, (s.target, raw), s.allocated);
        assert forall|i: int| 0 <= i < d.heads.len() implies emits(
            d.emitted,
            (#[trigger] d.heads[i]).1,
        ) by {
            if i < p.heads.len() {
                assert(d.heads[i] == p.heads[i]);
                assert(emits(p.emitted, p.heads[i].1));
            }
        }
    }
}

/// The entries of a node with a changed child are the other children and the
/// heads.
proof fn grown_known(
    c: Cow,
    b: u64,
    l: u8,
    emitted: Seq<(u64, Seq<u8>)>,
    entries: Seq<InteriorEntry>,
    i: int,
    heads: Seq<(Key, u64)>,
    generation: u64,
)
    requires
        0 <= i < entries.len(),
        heads.len() > 0,
        forall|k: int|
            0 <= k < entries.len() ==> known(c, b, l, emitted, (#[trigger] entries[k]).blockptr),
        heads_written(heads, emitted),
    ensures
        ({
            let g = grown(entries, i, heads, generation);
            forall|k: int| 0 <= k < g.len() ==> known(c, b, l, emitted, (#[trigger] g[k]).blockptr)
        }),
{
    broadcast use vstd::seq_lib::group_to_multiset_ensures;

    let mine = entries_for(heads, generation);
    let own = entries.update(i, mine[0]);
    let rest = entries_for(heads.skip(1), generation);
    let all = own + rest;
    assert(emits(emitted, heads[0].1));
    assert forall|k: int| 0 <= k < all.len() implies known(
        c,
        b,
        l,
        emitted,
        (#[trigger] all[k]).blockptr,
    ) by {
        if k < own.len() {
            if k != i {
                assert(own[k] == entries[k]);
            }
        } else {
            let x = k - own.len();
            assert(rest[x].blockptr == heads.skip(1)[x].1);
            assert(heads.skip(1)[x] == heads[x + 1]);
        }
    }
    let g = grown(entries, i, heads, generation);
    assert forall|k: int| 0 <= k < g.len() implies known(
        c,
        b,
        l,
        emitted,
        (#[trigger] g[k]).blockptr,
    ) by {
        if heads.len() > 1 {
            stable_sort_sorts(all);
            assert(g == stable_sort(all));
            assert(g.contains(g[k]));
            assert(g.to_multiset().count(g[k]) > 0);
            assert(all.to_multiset().count(g[k]) > 0);
            assert(all.contains(g[k]));
            let x = choose|x: int| 0 <= x < all.len() && all[x] == g[k];
            assert(known(c, b, l, emitted, all[x].blockptr));
        } else if k != i {
            assert(g[k] == entries[k]);
        }
    }
}

/// The children of a node of a tree are known, whatever is written.
proof fn entries_known(c: Cow, b: u64, level: u8, n: NodeV, emitted: Seq<(u64, Seq<u8>)>)
    requires
        level > 0,
        node_at(c.fs, c.pending, b) == Ok::<NodeV, Fault>(n),
    ensures
        ({
            let es = interior_of(n, c.fs.sb.csum_type).entries;
            &&& es.len() == n.ptrs.len()
            &&& forall|k: int|
                0 <= k < es.len() ==> known(c, b, level, emitted, (#[trigger] es[k]).blockptr)
        }),
{
    let es = interior_of(n, c.fs.sb.csum_type).entries;
    let below = (level - 1) as u8;
    tree_over_row(c.fs, c.pending, b, level, n);
    assert forall|k: int| 0 <= k < es.len() implies known(
        c,
        b,
        level,
        emitted,
        (#[trigger] es[k]).blockptr,
    ) by {
        let x = n.ptrs[k].blockptr;
        assert(in_tree(c.fs, c.pending, x, below, x));
        assert(in_row(c.fs, c.pending, n.ptrs, below, x));
        assert(in_tree(c.fs, c.pending, b, level, x));
    }
}

/// The tree below a child is part of the tree.
proof fn child_part(c: Cow, b: u64, level: u8, n: NodeV, i: int)
    requires
        level > 0,
        node_at(c.fs, c.pending, b) == Ok::<NodeV, Fault>(n),
        0 <= i < n.ptrs.len(),
    ensures
        forall|a: u64| #[trigger]
            in_tree(c.fs, c.pending, n.ptrs[i].blockptr, (level - 1) as u8, a) ==> in_tree(
                c.fs,
                c.pending,
                b,
                level,
                a,
            ),
{
    let below = (level - 1) as u8;
    tree_over_row(c.fs, c.pending, b, level, n);
    assert forall|a: u64| #[trigger]
        in_tree(c.fs, c.pending, n.ptrs[i].blockptr, below, a) implies in_tree(
        c.fs,
        c.pending,
        b,
        level,
        a,
    ) by {
        assert(in_row(c.fs, c.pending, n.ptrs, below, a));
    }
}

proof fn regrow_linked(
    c: Cow,
    b: u64,
    level: u8,
    n: NodeV,
    i: int,
    child: InsertV,
    d: InsertV,
)
    requires
        level > 0,
        n.level > 0,
        node_at(c.fs, c.pending, b) == Ok::<NodeV, Fault>(n),
        0 <= i < n.ptrs.len(),
        child.heads.len() > 0,
        linked(c, n.ptrs[i].blockptr, (level - 1) as u8, child.emitted, child.allocated),
        heads_written(child.heads, child.emitted),
        regrow(
            c,
            interior_of(n, c.fs.sb.csum_type),
            i,
            child,
            level,
            reusable(c, n, b),
            b,
        ) == Ok::<InsertV, Fault>(d),
    ensures
        linked(c, b, level, d.emitted, d.allocated),
        heads_written(d.heads, d.emitted),
        d.heads.len() > 0,
{
    let h = interior_of(n, c.fs.sb.csum_type);
    let reuse = reusable(c, n, b);
    let entries = grown(h.entries, i, child.heads, c.generation);
    header_of_node(c.fs, c.pending, b);
    child_part(c, b, level, n, i);
    linked_above(
        c,
        n.ptrs[i].blockptr,
        (level - 1) as u8,
        b,
        level,
        child.emitted,
        child.allocated,
    );
    entries_known(c, b, level, n, child.emitted);
    grown_known(c, b, level, child.emitted, h.entries, i, child.heads, c.generation);
    assert(in_tree(c.fs, c.pending, b, level, b));
    if child.heads.len() <= 1 || interior_used(entries.len())
        <= c.fs.sb.node_size {
        let s = spot(c, child.space, level, reuse, Some(b))->Some_0;
        let raw = write_interior(c, h, s.target, entries)->Ok_0;
        let all = child.emitted.push((s.target, raw));
        spot_known(c, child.space, level, reuse, Some(b));
        known_with_more(c, b, level, child.emitted, (s.target, raw), entries);
        interior_points_at_known(c, b, level, all, h, s.target, entries, raw);
        linked_more(c, b, level, child.emitted, child.allocated, (s.target, raw), s.allocated);
        assert(d.heads[0].1 == s.target);
    } else {
        let r = spot(c, child.space, level, None, None)->Some_0;
        let l = spot(c, r.space, level, reuse, Some(b))->Some_0;
        let mid = entries.len() as int / 2;
        let lraw = write_interior(c, h, l.target, entries.take(mid))->Ok_0;
        let rraw = write_interior(c, h, r.target, entries.skip(mid))->Ok_0;
        let one = child.emitted.push((l.target, lraw));
        let two = one.push((r.target, rraw));
        spot_known(c, child.space, level, None, None);
        spot_known(c, r.space, level, reuse, Some(b));
        known_with_more(c, b, level, child.emitted, (l.target, lraw), entries);
        known_with_more(c, b, level, one, (r.target, rraw), entries);
        assert forall|k: int| 0 <= k < entries.take(mid).len() implies known(
            c,
            b,
            level,
            one,
            (#[trigger] entries.take(mid)[k]).blockptr,
        ) by {
            assert(entries.take(mid)[k] == entries[k]);
        }
        assert forall|k: int| 0 <= k < entries.skip(mid).len() implies known(
            c,
            b,
            level,
            two,
            (#[trigger] entries.skip(mid)[k]).blockptr,
        ) by {
            assert(entries.skip(mid)[k] == entries[mid + k]);
        }
        interior_points_at_known(c, b, level, one, h, l.target, entries.take(mid), lraw);
        interior_points_at_known(c, b, level, two, h, r.target, entries.skip(mid), rraw);
        linked_more(c, b, level, child.emitted, child.allocated, (l.target, lraw), l.allocated);
        linked_more(
            c,
            b,
            level,
            one,
            child.allocated + l.allocated,
            (r.target, rraw),
            r.allocated,
        );
        linked_swapped(c, b, level, two, child.allocated, l.allocated, r.allocated);
        assert(d.heads[0].1 == l.target);
        assert(d.heads[1].1 == r.target);
        assert(emits(two, l.target));
    }
}

/// The order in which blocks were allocated does not matter.
proof fn linked_swapped(
    c: Cow,
    b: u64,
    l: u8,
    emitted: Seq<(u64, Seq<u8>)>,
    x: Seq<(u64, u8)>,
    y: Seq<(u64, u8)>,
    z: Seq<(u64, u8)>,
)
    requires
        linked(c, b, l, emitted, (x + y) + z),
    ensures
        linked(c, b, l, emitted, (x + z) + y),
{
    assert forall|a: u64| #[trigger] emits(emitted, a) implies frees((x + z) + y, a) || in_tree(
        c.fs,
        c.pending,
        b,
        l,
        a,
    ) by {
        frees_joined(x, y, a);
        frees_joined(x + y, z, a);
        frees_joined(x, z, a);
        frees_joined(x + z, y, a);
    }
}

/// What is known stays known when more is written.
proof fn known_with_more(
    c: Cow,
    b: u64,
    l: u8,
    emitted: Seq<(u64, Seq<u8>)>,
    w: (u64, Seq<u8>),
    entries: Seq<InteriorEntry>,
)
    requires
        forall|k: int|
            0 <= k < entries.len() ==> known(c, b, l, emitted, (#[trigger] entries[k]).blockptr),
    ensures
        forall|k: int|
            0 <= k < entries.len() ==> known(
                c,
                b,
                l,
                emitted.push(w),
                (#[trigger] entries[k]).blockptr,
            ),
{
    assert forall|k: int| 0 <= k < entries.len() implies known(
        c,
        b,
        l,
        emitted.push(w),
        (#[trigger] entries[k]).blockptr,
    ) by {
        assert(known(c, b, l, emitted, entries[k].blockptr));
        assert(w == (w.0, w.1));
        emits_pushed(emitted, w.0, w.1, entries[k].blockptr);
    }
}

/// What an insert writes hangs together.
pub proof fn insert_linked(c: Cow, space: Seq<BgV>, b: u64, level: u8, it: Item)
    requires
        insert_below(c, space, b, level, it) is Ok,
    ensures
        ({
            let d = insert_below(c, space, b, level, it)->Ok_0;
            linked(c, b, level, d.emitted, d.allocated) && heads_written(d.heads, d.emitted)
        }),
    decreases level,
{
    reveal(insert_below);
    let n = node_at(c.fs, c.pending, b)->Ok_0;
    let d = insert_below(c, space, b, level, it)->Ok_0;
    header_of_node(c.fs, c.pending, b);
    if level == 0 || n.nr_items() == 0 {
        let h = base_leaf(c, n);
        let groups = leaf_groups(
            h.items,
            it,
            c.fs.sb.node_size,
        )->Ok_0;
        place_linked(c, space, h, groups, reusable(c, n, b), b, level);
    } else {
        let i = child_index(n.ptrs, it.key);
        child_index_range(n.ptrs, it.key);
        let below = (level - 1) as u8;
        let child = insert_below(c, space, n.ptrs[i].blockptr, below, it)->Ok_0;
        insert_linked(c, space, n.ptrs[i].blockptr, below, it);
        insert_has_heads(c, space, n.ptrs[i].blockptr, below, it);
        regrow_linked(c, b, level, n, i, child, d);
    }
}

proof fn place_heads(
    c: Cow,
    space: Seq<BgV>,
    h: LeafV,
    groups: Seq<Seq<Item>>,
    reuse: Option<u64>,
    b: u64,
)
    requires
        place(c, space, h, groups, reuse, b) is Ok,
    ensures
        place(c, space, h, groups, reuse, b)->Ok_0.heads.len() == groups.len(),
    decreases groups.len(),
{
    if groups.len() > 0 {
        place_heads(c, space, h, groups.drop_last(), reuse, b);
    }
}

/// An insert leaves at least one node.
pub proof fn insert_has_heads(c: Cow, space: Seq<BgV>, b: u64, level: u8, it: Item)
    requires
        insert_below(c, space, b, level, it) is Ok,
    ensures
        insert_below(c, space, b, level, it)->Ok_0.heads.len() > 0,
{
    reveal(insert_below);
    let n = node_at(c.fs, c.pending, b)->Ok_0;
    if level == 0 || n.nr_items() == 0 {
        let h = base_leaf(c, n);
        let groups = leaf_groups(
            h.items,
            it,
            c.fs.sb.node_size,
        )->Ok_0;
        place_heads(c, space, h, groups, reusable(c, n, b), b);
    }
}

/// What inserting into a tree writes hangs together, and the new root is known.
pub proof fn tree_insert_linked(c: Cow, space: Seq<BgV>, root: u64, level: u8, it: Item)
    requires
        tree_insert(c, space, root, level, it) is Ok,
    ensures
        ({
            let r = tree_insert(c, space, root, level, it)->Ok_0;
            linked(c, root, level, r.emitted, r.allocated) && known(
                c,
                root,
                level,
                r.emitted,
                r.root,
            )
        }),
{
    reveal(tree_insert);
    let r = tree_insert(c, space, root, level, it)->Ok_0;
    let d = insert_below(c, space, root, level, it)->Ok_0;
    insert_linked(c, space, root, level, it);
    insert_has_heads(c, space, root, level, it);
    assert(emits(d.emitted, d.heads[0].1));
    if d.heads.len() > 1 {
        let n = node_at(c.fs, c.pending, root)->Ok_0;
        header_of_node(c.fs, c.pending, root);
        let above = if n.nr_items() == 0 {
            1u8
        } else {
            level.saturating_add(1)
        };
        let s = spot(c, d.space, above, None, None)->Some_0;
        let h = root_header(c, n, above);
        let entries = entries_for(d.heads, c.generation);
        let raw = write_interior(c, h, s.target, entries)->Ok_0;
        let all = d.emitted.push((s.target, raw));
        spot_known(c, d.space, above, None, None);
        assert forall|k: int| 0 <= k < entries.len() implies known(
            c,
            root,
            level,
            d.emitted,
            (#[trigger] entries[k]).blockptr,
        ) by {
            assert(entries[k].blockptr == d.heads[k].1);
        }
        known_with_more(c, root, level, d.emitted, (s.target, raw), entries);
        interior_points_at_known(c, root, level, all, h, s.target, entries, raw);
        linked_more(c, root, level, d.emitted, d.allocated, (s.target, raw), s.allocated);
    }
}

proof fn leaf_edit_linked(
    c: Cow,
    space: Seq<BgV>,
    b: u64,
    l: u8,
    n: NodeV,
    items: Seq<Item>,
    key: Key,
    is_root: bool,
    d: EditedV,
)
    requires
        node_at(c.fs, c.pending, b) == Ok::<NodeV, Fault>(n),
        leaf_edited(
            c,
            space,
            leaf_of(n, c.fs.sb.csum_type),
            items,
            reusable(c, n, b),
            b,
            key,
            is_root,
        ) == Ok::<EditedV, Fault>(d),
    ensures
        linked(c, b, l, d.emitted, d.allocated),
        d.node matches Some(x) ==> known(c, b, l, d.emitted, x.0),
{
    header_of_node(c.fs, c.pending, b);
    linked_nothing(c, b, l);
    if !(items.len() == 0 && !is_root) {
        let h = leaf_of(n, c.fs.sb.csum_type);
        let reuse = reusable(c, n, b);
        let s = spot(c, space, 0, reuse, Some(b))->Some_0;
        spot_known(c, space, 0, reuse, Some(b));
        let leaf = LeafV {
            bytenr: s.target,
            generation: c.generation,
            owner: c.owner,
            items,
            ..h
        };
        let raw = emit_leaf(leaf, c.fs.sb.node_size)->Ok_0;
        let none = Seq::<(u64, Seq<u8>)>::empty();
        assert(none.push((s.target, raw)) =~= seq![(s.target, raw)]);
        assert(Seq::<(u64, u8)>::empty() + s.allocated =~= s.allocated);
        leaf_points_at_known(c, b, l, none.push((s.target, raw)), leaf, raw);
        assert(in_tree(c.fs, c.pending, b, l, b));
        linked_more(c, b, l, none, Seq::empty(), (s.target, raw), s.allocated);
    }
}

/// The entries of a node with an edited child are the other children and what
/// the child became.
proof fn child_edited_known(
    c: Cow,
    b: u64,
    l: u8,
    emitted: Seq<(u64, Seq<u8>)>,
    entries: Seq<InteriorEntry>,
    i: int,
    node: Option<(u64, Key, u8)>,
    generation: u64,
)
    requires
        0 <= i < entries.len(),
        forall|k: int|
            0 <= k < entries.len() ==> known(c, b, l, emitted, (#[trigger] entries[k]).blockptr),
        node matches Some(x) ==> known(c, b, l, emitted, x.0),
    ensures
        ({
            let g = child_edited(entries, i, node, generation);
            forall|k: int| 0 <= k < g.len() ==> known(c, b, l, emitted, (#[trigger] g[k]).blockptr)
        }),
{
    let g = child_edited(entries, i, node, generation);
    assert forall|k: int| 0 <= k < g.len() implies known(
        c,
        b,
        l,
        emitted,
        (#[trigger] g[k]).blockptr,
    ) by {
        if node is None {
            if k < i {
                assert(g[k] == entries[k]);
            } else {
                assert(g[k] == entries[k + 1]);
            }
        } else if k != i {
            assert(g[k] == entries[k]);
        }
    }
}

proof fn interior_edit_linked(
    c: Cow,
    b: u64,
    level: u8,
    n: NodeV,
    i: int,
    child: EditedV,
    key: Key,
    is_root: bool,
    d: EditedV,
)
    requires
        level > 0,
        n.level > 0,
        node_at(c.fs, c.pending, b) == Ok::<NodeV, Fault>(n),
        0 <= i < n.ptrs.len(),
        linked(c, n.ptrs[i].blockptr, (level - 1) as u8, child.emitted, child.allocated),
        child.node matches Some(x) ==> known(
            c,
            n.ptrs[i].blockptr,
            (level - 1) as u8,
            child.emitted,
            x.0,
        ),
        interior_edited(
            c,
            n,
            child_edited(interior_of(n, c.fs.sb.csum_type).entries, i, child.node, c.generation),
            child,
            level,
            reusable(c, n, b),
            b,
            key,
            is_root,
        ) == Ok::<EditedV, Fault>(d),
    ensures
        linked(c, b, level, d.emitted, d.allocated),
        d.node matches Some(x) ==> known(c, b, level, d.emitted, x.0),
{
    let h = interior_of(n, c.fs.sb.csum_type);
    let reuse = reusable(c, n, b);
    let entries = child_edited(h.entries, i, child.node, c.generation);
    header_of_node(c.fs, c.pending, b);
    child_part(c, b, level, n, i);
    linked_above(
        c,
        n.ptrs[i].blockptr,
        (level - 1) as u8,
        b,
        level,
        child.emitted,
        child.allocated,
    );
    entries_known(c, b, level, n, child.emitted);
    child_edited_known(c, b, level, child.emitted, h.entries, i, child.node, c.generation);
    assert(in_tree(c.fs, c.pending, b, level, b));
    if entries.len() == 0 && !is_root {
    } else if entries.len() == 0 {
        let (t, rest) = alloc_meta(
            child.space,
            c.fs.sb.node_size,
            c.owner,
        )->Some_0;
        let leaf = LeafV {
            bytenr: t,
            generation: c.generation,
            owner: c.owner,
            flags: 1,
            metadata_uuid: n.metadata_uuid,
            chunk_tree_uuid: n.chunk_tree_uuid,
            csum_type: c.fs.sb.csum_type,
            items: Seq::empty(),
        };
        let raw = emit_leaf(leaf, c.fs.sb.node_size)->Ok_0;
        let all = child.emitted.push((t, raw));
        leaf_points_at_known(c, b, level, all, leaf, raw);
        frees_one(t, 0, t);
        linked_more(c, b, level, child.emitted, child.allocated, (t, raw), seq![(t, 0u8)]);
        assert(child.allocated + seq![(t, 0u8)] =~= child.allocated.push((t, 0u8)));
    } else if is_root && entries.len() == 1 {
        assert(known(c, b, level, child.emitted, entries[0].blockptr));
    } else {
        let s = spot(c, child.space, level, reuse, Some(b))->Some_0;
        let raw = write_interior(c, h, s.target, entries)->Ok_0;
        let all = child.emitted.push((s.target, raw));
        spot_known(c, child.space, level, reuse, Some(b));
        known_with_more(c, b, level, child.emitted, (s.target, raw), entries);
        interior_points_at_known(c, b, level, all, h, s.target, entries, raw);
        linked_more(c, b, level, child.emitted, child.allocated, (s.target, raw), s.allocated);
    }
}

/// What an edit writes hangs together, and the node that it leaves is known.
pub proof fn edit_linked(
    c: Cow,
    space: Seq<BgV>,
    b: u64,
    level: u8,
    key: Key,
    e: EditV,
    is_root: bool,
)
    requires
        edit_below(c, space, b, level, key, e, is_root) is Ok,
    ensures
        ({
            let d = edit_below(c, space, b, level, key, e, is_root)->Ok_0;
            &&& linked(c, b, level, d.emitted, d.allocated)
            &&& d.node matches Some(x) ==> known(c, b, level, d.emitted, x.0)
        }),
    decreases level,
{
    reveal(edit_below);
    let n = node_at(c.fs, c.pending, b)->Ok_0;
    let d = edit_below(c, space, b, level, key, e, is_root)->Ok_0;
    if level == 0 {
        let items = edit_items(n.items, key, e)->Ok_0;
        leaf_edit_linked(c, space, b, level, n, items, key, is_root, d);
    } else {
        let i = child_index(n.ptrs, key);
        child_index_range(n.ptrs, key);
        let below = (level - 1) as u8;
        let child = edit_below(c, space, n.ptrs[i].blockptr, below, key, e, false)->Ok_0;
        edit_linked(c, space, n.ptrs[i].blockptr, below, key, e, false);
        interior_edit_linked(c, b, level, n, i, child, key, is_root, d);
    }
}

/// What editing a tree writes hangs together, and the new root is known.
pub proof fn tree_edit_linked(c: Cow, space: Seq<BgV>, root: u64, level: u8, key: Key, e: EditV)
    requires
        tree_edit(c, space, root, level, key, e) is Ok,
    ensures
        ({
            let r = tree_edit(c, space, root, level, key, e)->Ok_0;
            linked(c, root, level, r.emitted, r.allocated) && known(
                c,
                root,
                level,
                r.emitted,
                r.root,
            )
        }),
{
    reveal(tree_edit);
    edit_linked(c, space, root, level, key, e, true);
}

/// The children of a node of a sound tree are part of the tree.
proof fn children_in_tree(
    fs: FsV,
    p: Map<u64, Seq<u8>>,
    root: u64,
    level: u8,
    lo: int,
    hi: int,
    b: u64,
    n: NodeV,
    j: int,
)
    requires
        sound(fs, p, root, level, lo, hi),
        in_tree(fs, p, root, level, b),
        node_at(fs, p, b) == Ok::<NodeV, Fault>(n),
        n.level > 0,
        0 <= j < n.ptrs.len(),
    ensures
        in_tree(fs, p, root, level, n.ptrs[j].blockptr),
    decreases level,
{
    reveal(sound);
    let m = node_at(fs, p, root)->Ok_0;
    if level > 0 {
        let below = (level - 1) as u8;
        let x = n.ptrs[j].blockptr;
        tree_over_row(fs, p, root, level, m);
        if b == root {
            assert(in_tree(fs, p, x, below, x));
            assert(in_row(fs, p, m.ptrs, below, x));
        } else {
            assert(in_row(fs, p, m.ptrs, below, b));
            let i = choose|i: int|
                0 <= i < m.ptrs.len() && in_tree(
                    fs,
                    p,
                    (#[trigger] m.ptrs[i]).blockptr,
                    below,
                    b,
                );
            children_in_tree(
                fs,
                p,
                m.ptrs[i].blockptr,
                below,
                m.ptrs[i].key.ord(),
                bound(m.ptrs, i, hi),
                b,
                n,
                j,
            );
            assert(in_row(fs, p, m.ptrs, below, x));
        }
    }
}

/// From a known block only known blocks are reached.
pub proof fn only_known_reached(
    c: Cow,
    q: Map<u64, Seq<u8>>,
    root: u64,
    level: u8,
    emitted: Seq<(u64, Seq<u8>)>,
    allocated: Seq<(u64, u8)>,
    freed: Seq<(u64, u8)>,
    b: u64,
    l: u8,
    lo: int,
    hi: int,
    a: u64,
)
    requires
        sound(c.fs, c.pending, root, level, 0, keys_end()),
        linked(c, root, level, emitted, allocated),
        carries(q, emitted),
        keeps(c.fs, c.pending, q, root, level, emitted, freed),
        sound(c.fs, q, b, l, lo, hi),
        forall|x: u64| #[trigger] in_tree(c.fs, q, b, l, x) ==> !frees(freed, x),
        known(c, root, level, emitted, b),
        in_tree(c.fs, q, b, l, a),
    ensures
        known(c, root, level, emitted, a),
    decreases l,
{
    if a != b {
        let fs = c.fs;
        let below = (l - 1) as u8;
        sound_interior(fs, q, b, l, lo, hi);
        let n = node_at(fs, q, b)->Ok_0;
        tree_over_row(fs, q, b, l, n);
        assert(in_row(fs, q, n.ptrs, below, a));
        let j = choose|j: int|
            0 <= j < n.ptrs.len() && in_tree(fs, q, (#[trigger] n.ptrs[j]).blockptr, below, a);
        let x = n.ptrs[j].blockptr;
        assert(in_tree(fs, q, b, l, b));
        assert(known(c, root, level, emitted, x)) by {
            if emits(emitted, b) {
                let i = choose|i: int| 0 <= i < emitted.len() && (#[trigger] emitted[i]).0 == b;
                assert(q[emitted[i].0] == emitted[i].1);
                reveal(node_at);
                assert(raw_points_at_known(c, root, level, emitted, emitted[i]));
                assert(points_at_known(c, root, level, emitted, n));
            } else {
                assert(in_tree(fs, c.pending, root, level, b));
                assert(node_at(fs, q, b) == node_at(fs, c.pending, b));
                children_in_tree(fs, c.pending, root, level, 0, keys_end(), b, n, j);
            }
        }
        assert forall|y: u64| #[trigger] in_tree(fs, q, x, below, y) implies !frees(freed, y) by {
            assert(in_row(fs, q, n.ptrs, below, y));
            assert(in_tree(fs, q, b, l, y));
        }
        assert(sound(fs, q, x, below, n.ptrs[j].key.ord(), bound(n.ptrs, j, hi)));
        only_known_reached(
            c,
            q,
            root,
            level,
            emitted,
            allocated,
            freed,
            x,
            below,
            n.ptrs[j].key.ord(),
            bound(n.ptrs, j, hi),
            a,
        );
    }
}

} // verus!
