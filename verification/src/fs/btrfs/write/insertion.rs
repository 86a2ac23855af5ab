//! An insert puts one item into a tree and leaves all others alone.

use vstd::prelude::*;

use crate::error::Fault;
use crate::fs::btrfs::tree::{
    child_index, child_index_range, key_ord_injective, Item, Key, KeyPtr, NodeV,
};
use crate::fs::btrfs::volume::node_at;
use crate::fs::btrfs::write::booking::{
    booked, booked_above, booked_more, booked_swapped, carries, child_unoffered, emits,
    emits_pushed, frees, frees_joined, frees_one, header_of_node, interior_stands, keeps,
    key_in_range, keys_end, leaf_stands, regrown, row_of, siblings_unchanged, siblings_untouched,
    spot_facts, unoffered, written_once,
};
use crate::fs::btrfs::write::contents::{
    bound, child_unchanged, held_by_one, holds, in_row, in_tree, items_ascend, items_within,
    row_apart, row_ascends, row_holds, row_sound, sound, sound_interior, sound_leaf, sound_wider,
    tree_over_row,
};
use crate::fs::btrfs::write::cow::{
    base_leaf, entries_for, grown, insert_below, kept, leaf_groups, place, regrow, reusable,
    root_header, spot, tree_insert, write_interior, Cow, InsertV,
};
use crate::fs::btrfs::write::handout::{offered, tidy};
use crate::fs::btrfs::write::node::{
    emit_leaf, entry_of, has_key, interior_of, interior_used, leaf_used, slot, slot_bounds,
    InteriorEntry, LeafV,
};
use crate::fs::btrfs::write::roundtrip::{leaf_node, ptr_of};
use crate::fs::btrfs::write::space::BgV;
use crate::fs::btrfs::write::splice::{
    entries_of_row, fits_in, grown_is_spliced, node_over_row, ptrs_of_entries, row_cut, spliced,
    spliced_at, spliced_blocks, spliced_holds, spliced_sound,
};

verus! {

/// What replaces the tree at `b`, under the blocks `q`, is sound and holds `it`
/// besides all that was held before.
pub open spec fn grafted(
    c: Cow,
    q: Map<u64, Seq<u8>>,
    b: u64,
    level: u8,
    lo: int,
    hi: int,
    it: Item,
    space: Seq<BgV>,
    d: InsertV,
) -> bool {
    let row = row_of(d.heads, c.generation);
    &&& row_sound(c.fs, q, row, level, hi)
    &&& lo <= row[0].key.ord()
    &&& forall|k: Key, x: Seq<u8>| #[trigger]
        row_holds(c.fs, q, row, level, k, x) == ((k == it.key && x == it.data) || holds(
            c.fs,
            c.pending,
            b,
            level,
            k,
            x,
        ))
    &&& forall|a: u64| #[trigger]
        in_row(c.fs, q, row, level, a) ==> (in_tree(c.fs, c.pending, b, level, a) || offered(
            space,
            a as int,
        ) > 0) && offered(d.space, a as int) == 0 && !frees(d.freed, a)
}

/// The leaf that group `j` is written as.
pub open spec fn group_leaf(c: Cow, h: LeafV, target: u64, items: Seq<Item>) -> LeafV {
    LeafV { bytenr: target, generation: c.generation, owner: c.owner, items, ..h }
}

/// What placing groups of items comes to, seen from outside.
pub open spec fn placed_well(
    c: Cow,
    space: Seq<BgV>,
    h: LeafV,
    groups: Seq<Seq<Item>>,
    reuse: Option<u64>,
    b: u64,
    d: InsertV,
) -> bool {
    &&& tidy(d.space)
    &&& forall|a: int| #[trigger] offered(d.space, a) <= offered(space, a)
    &&& d.heads.len() == groups.len()
    &&& d.emitted.len() == groups.len()
    &&& forall|j: int|
        0 <= j < groups.len() ==> {
            &&& (#[trigger] d.heads[j]).0 == groups[j][0].key
            &&& d.heads[j].1 == d.emitted[j].0
            &&& offered(d.space, d.heads[j].1 as int) == 0
            &&& (j == 0 && reuse is Some && d.heads[j].1 == b) || offered(
                space,
                d.heads[j].1 as int,
            ) > 0
            &&& emit_leaf(group_leaf(c, h, d.heads[j].1, groups[j]), c.fs.sb.node_size) == Ok::<
                Seq<u8>,
                Fault,
            >(d.emitted[j].1)
        }
    &&& written_once(d.emitted)
    &&& forall|a: u64| #[trigger] frees(d.freed, a) ==> a == b && reuse is None
}

proof fn place_facts(
    c: Cow,
    space: Seq<BgV>,
    h: LeafV,
    groups: Seq<Seq<Item>>,
    reuse: Option<u64>,
    b: u64,
)
    requires
        tidy(space),
        c.fs.sb.node_size > 0,
        offered(space, b as int) == 0,
        reuse matches Some(x) ==> x == b,
        place(c, space, h, groups, reuse, b) is Ok,
    ensures
        placed_well(c, space, h, groups, reuse, b, place(c, space, h, groups, reuse, b)->Ok_0),
    decreases groups.len(),
{
    let d = place(c, space, h, groups, reuse, b)->Ok_0;
    if groups.len() > 0 {
        let front = groups.drop_last();
        place_facts(c, space, h, front, reuse, b);
        let p = place(c, space, h, front, reuse, b)->Ok_0;
        let first = groups.len() == 1;
        let again = if first {
            reuse
        } else {
            None
        };
        let gone = if first {
            Some(b)
        } else {
            None
        };
        spot_facts(c, p.space, 0, again, gone);
        let s = spot(c, p.space, 0, again, gone)->Some_0;
        assert(d.space == s.space);
        assert(offered(p.space, b as int) <= offered(space, b as int));
        assert(offered(s.space, s.target as int) == 0);
        assert((again is Some && s.target == b) || offered(space, s.target as int) > 0) by {
            if again is None {
                assert(offered(p.space, s.target as int) <= offered(space, s.target as int));
            }
        }
        assert forall|a: int| #[trigger] offered(d.space, a) <= offered(space, a) by {
            assert(offered(s.space, a) <= offered(p.space, a));
            assert(offered(p.space, a) <= offered(space, a));
        }
        assert forall|j: int| 0 <= j < groups.len() implies {
            &&& (#[trigger] d.heads[j]).0 == groups[j][0].key
            &&& d.heads[j].1 == d.emitted[j].0
            &&& offered(d.space, d.heads[j].1 as int) == 0
            &&& (j == 0 && reuse is Some && d.heads[j].1 == b) || offered(
                space,
                d.heads[j].1 as int,
            ) > 0
            &&& emit_leaf(group_leaf(c, h, d.heads[j].1, groups[j]), c.fs.sb.node_size) == Ok::<
                Seq<u8>,
                Fault,
            >(d.emitted[j].1)
        } by {
            if j < front.len() {
                assert(d.heads[j] == p.heads[j]);
                assert(d.emitted[j] == p.emitted[j]);
                assert(front[j] == groups[j]);
                assert(offered(s.space, p.heads[j].1 as int) <= offered(
                    p.space,
                    p.heads[j].1 as int,
                ));
            }
        }
        assert forall|i: int, j: int| 0 <= i < j < d.emitted.len() implies (
        #[trigger] d.emitted[i]).0 != (#[trigger] d.emitted[j]).0 by {
            if j < front.len() {
                assert(d.emitted[i] == p.emitted[i]);
                assert(d.emitted[j] == p.emitted[j]);
            } else {
                assert(d.emitted[i] == p.emitted[i]);
                assert(p.heads[i].1 == p.emitted[i].0);
                assert(offered(p.space, p.heads[i].1 as int) == 0);
            }
        }
        assert forall|a: u64| #[trigger] frees(d.freed, a) implies a == b && reuse is None by {
            frees_joined(p.freed, s.freed, a);
            frees_one(b, 0, a);
        }
    }
}

/// Groups of items in a row.
pub open spec fn joined(groups: Seq<Seq<Item>>) -> Seq<Item>
    decreases groups.len(),
{
    if groups.len() == 0 {
        Seq::empty()
    } else {
        joined(groups.drop_last()) + groups.last()
    }
}

proof fn joined_kept(groups: Seq<Seq<Item>>, g: Seq<Item>)
    ensures
        joined(groups + kept(g)) == joined(groups) + g,
{
    if g.len() == 0 {
        assert(groups + kept(g) =~= groups);
        assert(joined(groups) + g =~= joined(groups));
    } else {
        assert((groups + kept(g)).drop_last() =~= groups);
    }
}

proof fn joined_one(g: Seq<Item>)
    ensures
        joined(kept(g)) == g,
        joined(seq![g]) == g,
{
    assert(Seq::<Seq<Item>>::empty() + kept(g) =~= kept(g));
    joined_kept(Seq::empty(), g);
    assert(Seq::<Item>::empty() + g =~= g);
    assert(seq![g].drop_last() =~= Seq::<Seq<Item>>::empty());
    assert(joined(seq![g].drop_last()) =~= Seq::<Item>::empty());
}

/// The groups of a leaf that took an item are not empty, and together they are
/// the old items with the new one in its place.
proof fn groups_join(items: Seq<Item>, it: Item, node_size: u32)
    requires
        leaf_groups(items, it, node_size) is Ok,
    ensures
        ({
            let g = leaf_groups(items, it, node_size)->Ok_0;
            &&& g.len() > 0
            &&& forall|j: int| 0 <= j < g.len() ==> (#[trigger] g[j]).len() > 0
            &&& joined(g) == items.insert(slot(items, it.key), it)
            &&& !has_key(items, it.key)
        }),
{
    slot_bounds(items, it.key);
    let pos = slot(items, it.key);
    let all = items.insert(pos, it);
    if leaf_used(items) + 25 + it.data.len() <= node_size {
        joined_one(all);
    } else {
        let left = items.take(pos);
        let right = items.skip(pos);
        let one = seq![it];
        if leaf_used(left.push(it)) <= node_size {
            joined_one(left.push(it));
            joined_kept(kept(left.push(it)), right);
            assert(left.push(it) + right =~= all);
        } else if leaf_used(one + right) <= node_size {
            joined_one(left);
            joined_kept(kept(left), one + right);
            assert(left + (one + right) =~= all);
        } else {
            joined_one(left);
            joined_kept(kept(left), one);
            joined_kept(kept(left) + kept(one), right);
            assert(left + one + right =~= all);
        }
    }
}

/// Where the keys of group `j` end, if those of all groups end at `hi`.
pub open spec fn group_bound(groups: Seq<Seq<Item>>, j: int, hi: int) -> int {
    if j + 1 < groups.len() {
        groups[j + 1][0].key.ord()
    } else {
        hi
    }
}

/// Groups cut from ascending items ascend, each up to where the next begins.
proof fn groups_ascend(groups: Seq<Seq<Item>>, lo: int, hi: int)
    requires
        groups.len() > 0,
        forall|j: int| 0 <= j < groups.len() ==> (#[trigger] groups[j]).len() > 0,
        items_ascend(joined(groups)),
        items_within(joined(groups), lo, hi),
    ensures
        lo <= groups[0][0].key.ord(),
        groups.last()[0].key.ord() < hi,
        forall|j: int|
            0 <= j < groups.len() ==> items_ascend(#[trigger] groups[j]) && items_within(
                groups[j],
                groups[j][0].key.ord(),
                group_bound(groups, j, hi),
            ),
        forall|i: int, j: int|
            0 <= i < j < groups.len() ==> (#[trigger] groups[i])[0].key.ord() < (
            #[trigger] groups[j])[0].key.ord(),
    decreases groups.len(),
{
    let front = groups.drop_last();
    let last = groups.last();
    let all = joined(groups);
    let head = joined(front);
    assert(all == head + last);
    let n = head.len() as int;
    assert forall|i: int| 0 <= i < last.len() implies #[trigger] last[i] == all[n + i] by {}
    assert(last.len() > 0) by {
        assert(groups[groups.len() - 1].len() > 0);
    }
    let mid = last[0].key.ord();
    assert(all[n] == last[0]);
    assert(items_ascend(last)) by {
        assert forall|i: int, j: int| 0 <= i < j < last.len() implies (
        #[trigger] last[i]).key.ord() < (#[trigger] last[j]).key.ord() by {
            assert(all[n + i].key.ord() < all[n + j].key.ord());
        }
    }
    assert(items_within(last, mid, hi)) by {
        assert forall|i: int| 0 <= i < last.len() implies mid <= (#[trigger] last[i]).key.ord()
            < hi by {
            assert(all[n + i].key.ord() < hi);
            if i > 0 {
                assert(last[0].key.ord() < last[i].key.ord());
            }
        }
    }
    if front.len() > 0 {
        assert forall|j: int| 0 <= j < front.len() implies (#[trigger] front[j]).len() > 0 by {
            assert(groups[j].len() > 0);
        }
        assert(items_ascend(head)) by {
            assert forall|i: int, j: int| 0 <= i < j < head.len() implies (
            #[trigger] head[i]).key.ord() < (#[trigger] head[j]).key.ord() by {
                assert(all[i] == head[i]);
                assert(all[j] == head[j]);
            }
        }
        assert(items_within(head, lo, mid)) by {
            assert forall|i: int| 0 <= i < head.len() implies lo <= (#[trigger] head[i]).key.ord()
                < mid by {
                assert(all[i] == head[i]);
                assert(all[i].key.ord() < all[n].key.ord());
            }
        }
        groups_ascend(front, lo, mid);
        assert forall|j: int| 0 <= j < groups.len() implies items_ascend(#[trigger] groups[j])
            && items_within(groups[j], groups[j][0].key.ord(), group_bound(groups, j, hi)) by {
            if j < front.len() {
                assert(front[j] == groups[j]);
                if j + 1 < front.len() {
                    assert(front[j + 1] == groups[j + 1]);
                }
            }
        }
        assert forall|i: int, j: int| 0 <= i < j < groups.len() implies (
        #[trigger] groups[i])[0].key.ord() < (#[trigger] groups[j])[0].key.ord() by {
            assert(front[i] == groups[i]);
            if j < front.len() {
                assert(front[j] == groups[j]);
            } else if i < front.len() - 1 {
                assert(front[i][0].key.ord() < front[front.len() - 1][0].key.ord());
            }
        }
        assert(front[0] == groups[0]);
    } else {
        assert(head =~= Seq::<Item>::empty());
        assert(all[0].key.ord() >= lo);
    }
}

proof fn joined_contains(groups: Seq<Seq<Item>>, x: Item)
    ensures
        joined(groups).contains(x) == exists|j: int|
            0 <= j < groups.len() && (#[trigger] groups[j]).contains(x),
    decreases groups.len(),
{
    if groups.len() > 0 {
        let front = groups.drop_last();
        let last = groups.last();
        let all = joined(groups);
        joined_contains(front, x);
        if all.contains(x) {
            let i = choose|i: int| 0 <= i < all.len() && all[i] == x;
            let n = joined(front).len();
            if i < n {
                assert(joined(front)[i] == x);
                let j = choose|j: int| 0 <= j < front.len() && (#[trigger] front[j]).contains(x);
                assert(groups[j].contains(x));
            } else {
                assert(last[i - n] == x);
                assert(groups[groups.len() - 1].contains(x));
            }
        }
        if exists|j: int| 0 <= j < groups.len() && (#[trigger] groups[j]).contains(x) {
            let j = choose|j: int| 0 <= j < groups.len() && (#[trigger] groups[j]).contains(x);
            if j < front.len() {
                assert(front[j].contains(x));
                let i = choose|i: int| 0 <= i < joined(front).len() && joined(front)[i] == x;
                assert(all[i] == x);
            } else {
                let i = choose|i: int| 0 <= i < last.len() && last[i] == x;
                assert(all[joined(front).len() + i] == x);
            }
        }
    }
}

/// Ascending items with one more in its place ascend.
proof fn inserted_ascend(items: Seq<Item>, it: Item, lo: int, hi: int)
    requires
        items_ascend(items),
        items_within(items, lo, hi),
        !has_key(items, it.key),
        lo <= it.key.ord() < hi,
    ensures
        items_ascend(items.insert(slot(items, it.key), it)),
        items_within(items.insert(slot(items, it.key), it), lo, hi),
        forall|x: Item| #[trigger]
            items.insert(slot(items, it.key), it).contains(x) == (x == it || items.contains(x)),
{
    slot_bounds(items, it.key);
    let s = slot(items, it.key);
    let all = items.insert(s, it);
    assert forall|i: int| s <= i < items.len() implies it.key.ord() < (
    #[trigger] items[i]).key.ord() by {
        key_ord_injective(items[s].key, it.key);
        if i > s {
            assert(items[s].key.ord() < items[i].key.ord());
        }
    }
    assert forall|i: int| 0 <= i < all.len() implies #[trigger] all[i] == if i < s {
        items[i]
    } else if i == s {
        it
    } else {
        items[i - 1]
    } by {}
    assert forall|i: int, j: int| 0 <= i < j < all.len() implies (#[trigger] all[i]).key.ord() < (
    #[trigger] all[j]).key.ord() by {}
    assert forall|x: Item| #[trigger] all.contains(x) == (x == it || items.contains(x)) by {
        if all.contains(x) {
            let i = choose|i: int| 0 <= i < all.len() && all[i] == x;
            if i < s {
                assert(items[i] == x);
            } else if i > s {
                assert(items[i - 1] == x);
            }
        }
        if x == it {
            assert(all[s] == x);
        }
        if items.contains(x) {
            let i = choose|i: int| 0 <= i < items.len() && items[i] == x;
            if i < s {
                assert(all[i] == x);
            } else {
                assert(all[i + 1] == x);
            }
        }
    }
}

/// A leaf that took an item, placed: what it comes to is booked.
proof fn leaf_booked(c: Cow, space: Seq<BgV>, b: u64, n: NodeV, it: Item)
    requires
        tidy(space),
        c.fs.sb.node_size > 0,
        node_at(c.fs, c.pending, b) == Ok::<NodeV, Fault>(n),
        n.level == 0,
        unoffered(c.fs, c.pending, b, 0, space),
        insert_below(c, space, b, 0, it) is Ok,
    ensures
        ({
            let h = base_leaf(c, n);
            let groups = leaf_groups(h.items, it, c.fs.sb.node_size);
            let d = insert_below(c, space, b, 0, it)->Ok_0;
            &&& groups is Ok
            &&& placed_well(c, space, h, groups->Ok_0, reusable(c, n, b), b, d)
            &&& booked(c.fs, c.pending, b, 0, space, d.emitted, d.freed, d.space)
            &&& d.heads.len() > 0
        }),
{
    reveal(insert_below);
    let h = base_leaf(c, n);
    let groups = leaf_groups(h.items, it, c.fs.sb.node_size)->Ok_0;
    let reuse = reusable(c, n, b);
    assert(in_tree(c.fs, c.pending, b, 0, b));
    place_facts(c, space, h, groups, reuse, b);
    groups_join(h.items, it, c.fs.sb.node_size);
    let d = insert_below(c, space, b, 0, it)->Ok_0;
    assert forall|a: u64| #[trigger] emits(d.emitted, a) implies (in_tree(
        c.fs,
        c.pending,
        b,
        0,
        a,
    ) || offered(space, a as int) > 0) && offered(d.space, a as int) == 0 by {
        let j = choose|j: int| 0 <= j < d.emitted.len() && (#[trigger] d.emitted[j]).0 == a;
        assert(d.heads[j].1 == a);
    }
    assert forall|a: u64| #[trigger] frees(d.freed, a) implies in_tree(
        c.fs,
        c.pending,
        b,
        0,
        a,
    ) && !emits(d.emitted, a) by {
        if emits(d.emitted, a) {
            let j = choose|j: int| 0 <= j < d.emitted.len() && (#[trigger] d.emitted[j]).0 == a;
            assert(d.heads[j].1 == a);
        }
    }
}

/// A leaf that took an item, placed: what replaces it is sound and holds the
/// item besides the old ones.
proof fn leaf_grafted(
    c: Cow,
    space: Seq<BgV>,
    b: u64,
    n: NodeV,
    lo: int,
    hi: int,
    it: Item,
    q: Map<u64, Seq<u8>>,
)
    requires
        tidy(space),
        c.fs.sb.node_size > 0,
        node_at(c.fs, c.pending, b) == Ok::<NodeV, Fault>(n),
        sound(c.fs, c.pending, b, 0, lo, hi),
        lo <= it.key.ord() < hi,
        unoffered(c.fs, c.pending, b, 0, space),
        insert_below(c, space, b, 0, it) is Ok,
        carries(q, insert_below(c, space, b, 0, it)->Ok_0.emitted),
    ensures
        grafted(c, q, b, 0, lo, hi, it, space, insert_below(c, space, b, 0, it)->Ok_0),
{
    sound_leaf(c.fs, c.pending, b, lo, hi);
    leaf_booked(c, space, b, n, it);
    header_of_node(c.fs, c.pending, b);
    let h = base_leaf(c, n);
    let items = h.items;
    let groups = leaf_groups(items, it, c.fs.sb.node_size)->Ok_0;
    let d = insert_below(c, space, b, 0, it)->Ok_0;
    groups_join(items, it, c.fs.sb.node_size);
    inserted_ascend(items, it, lo, hi);
    groups_ascend(groups, lo, hi);
    let row = row_of(d.heads, c.generation);
    assert forall|j: int| 0 <= j < row.len() implies node_at(
        c.fs,
        q,
        (#[trigger] row[j]).blockptr,
    ) == Ok::<NodeV, Fault>(leaf_node(group_leaf(c, h, row[j].blockptr, groups[j])))
        && row[j].key == groups[j][0].key && row[j].blockptr == d.heads[j].1 by {
        let l = group_leaf(c, h, d.heads[j].1, groups[j]);
        assert(q[d.emitted[j].0] == d.emitted[j].1);
        leaf_stands(c, q, l, d.emitted[j].1);
    }
    assert(row_ascends(row)) by {
        assert forall|i: int, j: int| 0 <= i < j < row.len() implies (
        #[trigger] row[i]).key.ord() < (#[trigger] row[j]).key.ord() by {
            assert(groups[i][0].key.ord() < groups[j][0].key.ord());
        }
    }
    assert forall|j: int| 0 <= j < row.len() implies sound(
        c.fs,
        q,
        (#[trigger] row[j]).blockptr,
        0,
        row[j].key.ord(),
        bound(row, j, hi),
    ) by {
        assert(items_ascend(groups[j]));
        if j + 1 < row.len() {
            assert(row[j + 1].key == groups[j + 1][0].key);
        }
        sound_leaf(c.fs, q, row[j].blockptr, row[j].key.ord(), bound(row, j, hi));
    }
    assert(row_apart(c.fs, q, row, 0)) by {
        assert forall|i: int, j: int, a: u64|
            #![trigger row[i], row[j], in_tree(c.fs, q, row[i].blockptr, 0, a)]
            0 <= i < row.len() && 0 <= j < row.len() && i != j && in_tree(
                c.fs,
                q,
                row[i].blockptr,
                0,
                a,
            ) implies !in_tree(c.fs, q, row[j].blockptr, 0, a) by {
            assert(d.heads[i].1 == d.emitted[i].0);
            assert(d.heads[j].1 == d.emitted[j].0);
            if i < j {
                assert(d.emitted[i].0 != d.emitted[j].0);
            } else {
                assert(d.emitted[j].0 != d.emitted[i].0);
            }
        }
    }
    assert forall|k: Key, x: Seq<u8>| #[trigger] row_holds(c.fs, q, row, 0, k, x) == ((k == it.key
        && x == it.data) || holds(c.fs, c.pending, b, 0, k, x)) by {
        let one = Item { key: k, data: x };
        joined_contains(groups, one);
        assert(joined(groups).contains(one) == (one == it || items.contains(one)));
        if row_holds(c.fs, q, row, 0, k, x) {
            let j = choose|j: int|
                0 <= j < row.len() && holds(c.fs, q, (#[trigger] row[j]).blockptr, 0, k, x);
            assert(groups[j].contains(one));
        }
        if joined(groups).contains(one) {
            let j = choose|j: int| 0 <= j < groups.len() && (#[trigger] groups[j]).contains(one);
            assert(holds(c.fs, q, row[j].blockptr, 0, k, x));
        }
    }
    assert forall|a: u64| #[trigger] in_row(c.fs, q, row, 0, a) implies (in_tree(
        c.fs,
        c.pending,
        b,
        0,
        a,
    ) || offered(space, a as int) > 0) && offered(d.space, a as int) == 0 && !frees(
        d.freed,
        a,
    ) by {
        let j = choose|j: int|
            0 <= j < row.len() && in_tree(c.fs, q, (#[trigger] row[j]).blockptr, 0, a);
        assert(d.heads[j].1 == a);
        assert(d.emitted[j].0 == a);
        assert(emits(d.emitted, a));
    }
}

/// What replacing child `i` comes to is booked.
proof fn regrow_booked(
    c: Cow,
    space: Seq<BgV>,
    b: u64,
    level: u8,
    n: NodeV,
    i: int,
    lo: int,
    hi: int,
    child: InsertV,
)
    requires
        level > 0,
        c.fs.sb.node_size > 0,
        node_at(c.fs, c.pending, b) == Ok::<NodeV, Fault>(n),
        sound(c.fs, c.pending, b, level, lo, hi),
        0 <= i < n.ptrs.len(),
        unoffered(c.fs, c.pending, b, level, space),
        booked(
            c.fs,
            c.pending,
            n.ptrs[i].blockptr,
            (level - 1) as u8,
            space,
            child.emitted,
            child.freed,
            child.space,
        ),
        regrow(
            c,
            interior_of(n, c.fs.sb.csum_type),
            i,
            child,
            level,
            reusable(c, n, b),
            b,
        ) is Ok,
    ensures
        ({
            let d = regrow(
                c,
                interior_of(n, c.fs.sb.csum_type),
                i,
                child,
                level,
                reusable(c, n, b),
                b,
            )->Ok_0;
            &&& booked(c.fs, c.pending, b, level, space, d.emitted, d.freed, d.space)
            &&& d.heads.len() > 0
        }),
{
    let h = interior_of(n, c.fs.sb.csum_type);
    let reuse = reusable(c, n, b);
    let d = regrow(c, h, i, child, level, reuse, b)->Ok_0;
    booked_above(
        c.fs,
        c.pending,
        b,
        level,
        n,
        i,
        lo,
        hi,
        space,
        child.emitted,
        child.freed,
        child.space,
    );
    let entries = grown(h.entries, i, child.heads, c.generation);
    if child.heads.len() <= 1 || interior_used(entries.len()) <= c.fs.sb.node_size {
        let s = spot(c, child.space, level, reuse, Some(b))->Some_0;
        let raw = write_interior(c, h, s.target, entries)->Ok_0;
        booked_more(
            c,
            b,
            level,
            space,
            child.emitted,
            child.freed,
            child.space,
            level,
            reuse,
            Some(b),
            raw,
        );
    } else {
        let r = spot(c, child.space, level, None, None)->Some_0;
        let l = spot(c, r.space, level, reuse, Some(b))->Some_0;
        let mid = entries.len() as int / 2;
        let lraw = write_interior(c, h, l.target, entries.take(mid))->Ok_0;
        let rraw = write_interior(c, h, r.target, entries.skip(mid))->Ok_0;
        booked_more(
            c,
            b,
            level,
            space,
            child.emitted,
            child.freed,
            child.space,
            level,
            None,
            None,
            rraw,
        );
        spot_facts(c, child.space, level, None, None);
        assert(child.freed + r.freed =~= child.freed);
        let more = child.emitted.push((r.target, rraw));
        emits_pushed(child.emitted, r.target, rraw, b);
        assert(offered(r.space, b as int) <= offered(child.space, b as int));
        booked_more(
            c,
            b,
            level,
            space,
            more,
            child.freed,
            r.space,
            level,
            reuse,
            Some(b),
            lraw,
        );
        booked_swapped(
            c.fs,
            c.pending,
            b,
            level,
            space,
            child.emitted,
            (r.target, rraw),
            (l.target, lraw),
            child.freed + l.freed,
            l.space,
        );
    }
}

/// What is known of a tree whose child `i` was replaced, before the node above
/// is written.
pub open spec fn child_grafted(
    c: Cow,
    q: Map<u64, Seq<u8>>,
    b: u64,
    level: u8,
    n: NodeV,
    i: int,
    lo: int,
    hi: int,
    it: Item,
    space: Seq<BgV>,
    child: InsertV,
) -> bool {
    let below = (level - 1) as u8;
    let e = spliced(n.ptrs, i, row_of(child.heads, c.generation));
    &&& row_sound(c.fs, q, e, below, hi)
    &&& lo <= e[0].key.ord()
    &&& forall|k: Key, x: Seq<u8>| #[trigger]
        row_holds(c.fs, q, e, below, k, x) == ((k == it.key && x == it.data) || holds(
            c.fs,
            c.pending,
            b,
            level,
            k,
            x,
        ))
    &&& forall|a: u64| #[trigger]
        in_row(c.fs, q, e, below, a) ==> {
            &&& a != b
            &&& in_tree(c.fs, c.pending, b, level, a) || offered(space, a as int) > 0
            &&& offered(child.space, a as int) == 0
            &&& !frees(child.freed, a)
        }
}

proof fn child_is_grafted(
    c: Cow,
    q: Map<u64, Seq<u8>>,
    b: u64,
    level: u8,
    n: NodeV,
    i: int,
    lo: int,
    hi: int,
    it: Item,
    space: Seq<BgV>,
    child: InsertV,
    emitted: Seq<(u64, Seq<u8>)>,
    freed: Seq<(u64, u8)>,
)
    requires
        level > 0,
        node_at(c.fs, c.pending, b) == Ok::<NodeV, Fault>(n),
        sound(c.fs, c.pending, b, level, lo, hi),
        lo <= it.key.ord() < hi,
        i == child_index(n.ptrs, it.key),
        unoffered(c.fs, c.pending, b, level, space),
        booked(
            c.fs,
            c.pending,
            n.ptrs[i].blockptr,
            (level - 1) as u8,
            space,
            child.emitted,
            child.freed,
            child.space,
        ),
        child.heads.len() > 0,
        grafted(
            c,
            q,
            n.ptrs[i].blockptr,
            (level - 1) as u8,
            if n.ptrs[i].key.ord() <= it.key.ord() {
                n.ptrs[i].key.ord()
            } else {
                it.key.ord()
            },
            bound(n.ptrs, i, hi),
            it,
            space,
            child,
        ),
        keeps(c.fs, c.pending, q, b, level, emitted, freed),
        forall|a: u64|
            !emits(child.emitted, a) && a != b && offered(child.space, a as int) == 0
                ==> !#[trigger] emits(emitted, a),
        forall|a: u64|
            !frees(child.freed, a) && a != b ==> !#[trigger] frees(freed, a),
    ensures
        child_grafted(c, q, b, level, n, i, lo, hi, it, space, child),
{
    let fs = c.fs;
    let p = c.pending;
    let below = (level - 1) as u8;
    let row = n.ptrs;
    let heads = row_of(child.heads, c.generation);
    sound_interior(fs, p, b, level, lo, hi);
    child_index_range(row, it.key);
    assert forall|j: int| 0 <= j < row.len() && j != i implies child_unchanged(
        fs,
        p,
        q,
        (#[trigger] row[j]).blockptr,
        below,
        row[j].key.ord(),
        bound(row, j, hi),
    ) by {
        assert forall|a: u64| in_tree(fs, p, row[j].blockptr, below, a) implies !#[trigger] emits(
            emitted,
            a,
        ) && !frees(freed, a) by {
            siblings_untouched(
                fs,
                p,
                b,
                level,
                n,
                i,
                j,
                lo,
                hi,
                space,
                child.emitted,
                child.freed,
                child.space,
                a,
            );
        }
        siblings_unchanged(fs, p, q, b, level, n, i, j, lo, hi, emitted, freed);
    }
    assert forall|j: int, a: u64|
        #![trigger row[j], in_row(fs, q, heads, below, a)]
        0 <= j < row.len() && j != i && in_row(fs, q, heads, below, a) implies !in_tree(
        fs,
        p,
        row[j].blockptr,
        below,
        a,
    ) by {
        if in_tree(fs, p, row[j].blockptr, below, a) {
            siblings_untouched(
                fs,
                p,
                b,
                level,
                n,
                i,
                j,
                lo,
                hi,
                space,
                child.emitted,
                child.freed,
                child.space,
                a,
            );
        }
    }
    assert(fits_in(fs, p, q, row, i, heads, below, hi));
    spliced_sound(fs, p, q, row, i, heads, below, hi);
    let e = spliced(row, i, heads);
    spliced_at(row, i, heads, 0);
    assert(lo <= e[0].key.ord()) by {
        if i > 0 {
            assert(e[0] == row[0]);
        } else {
            assert(e[0] == heads[0]);
        }
    }
    child_holds_all(c, q, b, level, n, i, lo, hi, it, space, child);
    assert forall|a: u64| #[trigger] in_row(fs, q, e, below, a) implies {
        &&& a != b
        &&& in_tree(fs, p, b, level, a) || offered(space, a as int) > 0
        &&& offered(child.space, a as int) == 0
        &&& !frees(child.freed, a)
    } by {
        spliced_blocks(fs, p, q, row, i, heads, below, hi, a);
        if in_row(fs, q, heads, below, a) {
            if in_tree(fs, p, row[i].blockptr, below, a) {
                assert(in_row(fs, p, row, below, a));
                assert(in_tree(fs, p, b, level, a));
            }
            assert(in_tree(fs, p, b, level, b));
        } else {
            let j = choose|j: int|
                0 <= j < row.len() && j != i && in_tree(
                    fs,
                    p,
                    (#[trigger] row[j]).blockptr,
                    below,
                    a,
                );
            siblings_untouched(
                fs,
                p,
                b,
                level,
                n,
                i,
                j,
                lo,
                hi,
                space,
                child.emitted,
                child.freed,
                child.space,
                a,
            );
        }
    }
}

proof fn child_holds_all(
    c: Cow,
    q: Map<u64, Seq<u8>>,
    b: u64,
    level: u8,
    n: NodeV,
    i: int,
    lo: int,
    hi: int,
    it: Item,
    space: Seq<BgV>,
    child: InsertV,
)
    requires
        level > 0,
        node_at(c.fs, c.pending, b) == Ok::<NodeV, Fault>(n),
        fits_in(
            c.fs,
            c.pending,
            q,
            n.ptrs,
            i,
            row_of(child.heads, c.generation),
            (level - 1) as u8,
            hi,
        ),
        forall|k: Key, x: Seq<u8>| #[trigger]
            row_holds(
                c.fs,
                q,
                row_of(child.heads, c.generation),
                (level - 1) as u8,
                k,
                x,
            ) == ((k == it.key && x == it.data) || holds(
                c.fs,
                c.pending,
                n.ptrs[i].blockptr,
                (level - 1) as u8,
                k,
                x,
            )),
    ensures
        forall|k: Key, x: Seq<u8>| #[trigger]
            row_holds(
                c.fs,
                q,
                spliced(n.ptrs, i, row_of(child.heads, c.generation)),
                (level - 1) as u8,
                k,
                x,
            ) == ((k == it.key && x == it.data) || holds(c.fs, c.pending, b, level, k, x)),
{
    let fs = c.fs;
    let p = c.pending;
    let below = (level - 1) as u8;
    let row = n.ptrs;
    let heads = row_of(child.heads, c.generation);
    let e = spliced(row, i, heads);
    tree_over_row(fs, p, b, level, n);
    assert forall|k: Key, x: Seq<u8>| #[trigger] row_holds(fs, q, e, below, k, x) == ((k == it.key
        && x == it.data) || holds(fs, p, b, level, k, x)) by {
        spliced_holds(fs, p, q, row, i, heads, below, hi, k, x);
        assert(holds(fs, p, b, level, k, x) == row_holds(fs, p, row, below, k, x));
        assert(row_holds(fs, q, heads, below, k, x) == ((k == it.key && x == it.data) || holds(
            fs,
            p,
            row[i].blockptr,
            below,
            k,
            x,
        )));
        if holds(fs, p, b, level, k, x) {
            let j = choose|j: int|
                0 <= j < row.len() && holds(fs, p, (#[trigger] row[j]).blockptr, below, k, x);
            assert(j == i || (j != i && holds(fs, p, row[j].blockptr, below, k, x)));
        }
        if exists|j: int|
            0 <= j < row.len() && j != i && holds(
                fs,
                p,
                (#[trigger] row[j]).blockptr,
                below,
                k,
                x,
            ) {
            let j = choose|j: int|
                0 <= j < row.len() && j != i && holds(
                    fs,
                    p,
                    (#[trigger] row[j]).blockptr,
                    below,
                    k,
                    x,
                );
            assert(row_holds(fs, p, row, below, k, x));
        }
        if holds(fs, p, row[i].blockptr, below, k, x) {
            assert(row_holds(fs, p, row, below, k, x));
        }
    }
}

/// One node over the spliced row.
proof fn regrown_whole(
    c: Cow,
    q: Map<u64, Seq<u8>>,
    b: u64,
    level: u8,
    lo: int,
    hi: int,
    it: Item,
    space: Seq<BgV>,
    e: Seq<KeyPtr>,
    t: u64,
    d: InsertV,
)
    requires
        level > 0,
        node_at(c.fs, q, t) matches Ok(n) && n.level == level && n.ptrs == e,
        row_sound(c.fs, q, e, (level - 1) as u8, hi),
        !in_row(c.fs, q, e, (level - 1) as u8, t),
        lo <= e[0].key.ord(),
        d.heads == seq![(e[0].key, t)],
        forall|k: Key, x: Seq<u8>| #[trigger]
            row_holds(c.fs, q, e, (level - 1) as u8, k, x) == ((k == it.key && x == it.data)
                || holds(c.fs, c.pending, b, level, k, x)),
        forall|a: u64|
            a == t || in_row(c.fs, q, e, (level - 1) as u8, a) ==> #[trigger] offered(
                d.space,
                a as int,
            ) == 0 && (in_tree(c.fs, c.pending, b, level, a) || offered(space, a as int) > 0)
                && !frees(d.freed, a),
    ensures
        grafted(c, q, b, level, lo, hi, it, space, d),
{
    let row = row_of(d.heads, c.generation);
    node_over_row(c.fs, q, t, level, e, hi);
    assert(row.len() == 1 && row[0].blockptr == t && row[0].key == e[0].key);
    assert(e[0].key.ord() < hi) by {
        if e.len() > 1 {
            assert(e[0].key.ord() < e[e.len() - 1].key.ord());
        }
    }
    assert forall|k: Key, x: Seq<u8>| #[trigger] row_holds(c.fs, q, row, level, k, x) == ((k
        == it.key && x == it.data) || holds(c.fs, c.pending, b, level, k, x)) by {
        assert(holds(c.fs, q, t, level, k, x) == row_holds(c.fs, q, e, (level - 1) as u8, k, x));
        if holds(c.fs, q, t, level, k, x) {
            assert(holds(c.fs, q, row[0].blockptr, level, k, x));
        }
    }
    assert forall|a: u64| #[trigger] in_row(c.fs, q, row, level, a) implies (in_tree(
        c.fs,
        c.pending,
        b,
        level,
        a,
    ) || offered(space, a as int) > 0) && offered(d.space, a as int) == 0 && !frees(
        d.freed,
        a,
    ) by {
        assert(in_tree(c.fs, q, t, level, a));
        assert(offered(d.space, a as int) == 0);
    }
}

/// Two nodes over the two parts of the spliced row.
proof fn regrown_split(
    c: Cow,
    q: Map<u64, Seq<u8>>,
    b: u64,
    level: u8,
    lo: int,
    hi: int,
    it: Item,
    space: Seq<BgV>,
    e: Seq<KeyPtr>,
    mid: int,
    l: u64,
    r: u64,
    d: InsertV,
)
    requires
        level > 0,
        0 < mid < e.len(),
        l != r,
        node_at(c.fs, q, l) matches Ok(n) && n.level == level && n.ptrs == e.take(mid),
        node_at(c.fs, q, r) matches Ok(n) && n.level == level && n.ptrs == e.skip(mid),
        row_sound(c.fs, q, e, (level - 1) as u8, hi),
        !in_row(c.fs, q, e, (level - 1) as u8, l),
        !in_row(c.fs, q, e, (level - 1) as u8, r),
        lo <= e[0].key.ord(),
        d.heads == seq![(e[0].key, l), (e[mid].key, r)],
        forall|k: Key, x: Seq<u8>| #[trigger]
            row_holds(c.fs, q, e, (level - 1) as u8, k, x) == ((k == it.key && x == it.data)
                || holds(c.fs, c.pending, b, level, k, x)),
        forall|a: u64|
            a == l || a == r || in_row(c.fs, q, e, (level - 1) as u8, a) ==> #[trigger] offered(
                d.space,
                a as int,
            ) == 0 && (in_tree(c.fs, c.pending, b, level, a) || offered(space, a as int) > 0)
                && !frees(d.freed, a),
    ensures
        grafted(c, q, b, level, lo, hi, it, space, d),
{
    let fs = c.fs;
    let below = (level - 1) as u8;
    let row = row_of(d.heads, c.generation);
    row_cut(fs, q, e, below, hi, mid);
    let el = e.take(mid);
    let er = e.skip(mid);
    assert(in_row(fs, q, e, below, l) == (in_row(fs, q, el, below, l) || in_row(
        fs,
        q,
        er,
        below,
        l,
    )));
    assert(in_row(fs, q, e, below, r) == (in_row(fs, q, el, below, r) || in_row(
        fs,
        q,
        er,
        below,
        r,
    )));
    node_over_row(fs, q, l, level, el, e[mid].key.ord());
    node_over_row(fs, q, r, level, er, hi);
    assert(row.len() == 2);
    assert(row[0].blockptr == l && row[0].key == e[0].key);
    assert(row[1].blockptr == r && row[1].key == e[mid].key);
    assert(el[0] == e[0] && er[0] == e[mid]);
    assert(e[0].key.ord() < e[mid].key.ord());
    assert(e[mid].key.ord() < hi) by {
        if mid < e.len() - 1 {
            assert(e[mid].key.ord() < e[e.len() - 1].key.ord());
        }
    }
    assert(row_ascends(row));
    assert forall|j: int| 0 <= j < row.len() implies sound(
        fs,
        q,
        (#[trigger] row[j]).blockptr,
        level,
        row[j].key.ord(),
        bound(row, j, hi),
    ) by {
        assert(j == 0 || j == 1);
    }
    assert(row_apart(fs, q, row, level)) by {
        assert forall|i: int, j: int, a: u64|
            #![trigger row[i], row[j], in_tree(fs, q, row[i].blockptr, level, a)]
            0 <= i < row.len() && 0 <= j < row.len() && i != j && in_tree(
                fs,
                q,
                row[i].blockptr,
                level,
                a,
            ) implies !in_tree(fs, q, row[j].blockptr, level, a) by {
            assert(in_tree(fs, q, l, level, a) == (a == l || in_row(fs, q, el, below, a)));
            assert(in_tree(fs, q, r, level, a) == (a == r || in_row(fs, q, er, below, a)));
            assert((i == 0 && j == 1) || (i == 1 && j == 0));
        }
    }
    assert forall|k: Key, x: Seq<u8>| #[trigger] row_holds(fs, q, row, level, k, x) == ((k
        == it.key && x == it.data) || holds(fs, c.pending, b, level, k, x)) by {
        assert(row_holds(fs, q, e, below, k, x) == (row_holds(fs, q, el, below, k, x)
            || row_holds(fs, q, er, below, k, x)));
        assert(holds(fs, q, l, level, k, x) == row_holds(fs, q, el, below, k, x));
        assert(holds(fs, q, r, level, k, x) == row_holds(fs, q, er, below, k, x));
        if row_holds(fs, q, row, level, k, x) {
            let j = choose|j: int|
                0 <= j < row.len() && holds(fs, q, (#[trigger] row[j]).blockptr, level, k, x);
            assert(j == 0 || j == 1);
        }
        if holds(fs, q, l, level, k, x) {
            assert(holds(fs, q, row[0].blockptr, level, k, x));
        }
        if holds(fs, q, r, level, k, x) {
            assert(holds(fs, q, row[1].blockptr, level, k, x));
        }
    }
    assert forall|a: u64| #[trigger] in_row(fs, q, row, level, a) implies (in_tree(
        fs,
        c.pending,
        b,
        level,
        a,
    ) || offered(space, a as int) > 0) && offered(d.space, a as int) == 0 && !frees(
        d.freed,
        a,
    ) by {
        let j = choose|j: int|
            0 <= j < row.len() && in_tree(fs, q, (#[trigger] row[j]).blockptr, level, a);
        assert(j == 0 || j == 1);
        assert(in_row(fs, q, e, below, a) == (in_row(fs, q, el, below, a) || in_row(
            fs,
            q,
            er,
            below,
            a,
        )));
        assert(offered(d.space, a as int) == 0);
    }
}

/// What replacing child `i` comes to is sound and holds the item besides all
/// that was held before.
#[verifier::rlimit(60)]
#[verifier::spinoff_prover]
proof fn regrow_grafted(
    c: Cow,
    space: Seq<BgV>,
    b: u64,
    level: u8,
    n: NodeV,
    i: int,
    lo: int,
    hi: int,
    it: Item,
    child: InsertV,
    q: Map<u64, Seq<u8>>,
    d: InsertV,
)
    requires
        level > 0,
        c.fs.sb.node_size > 0,
        node_at(c.fs, c.pending, b) == Ok::<NodeV, Fault>(n),
        sound(c.fs, c.pending, b, level, lo, hi),
        lo <= it.key.ord() < hi,
        i == child_index(n.ptrs, it.key),
        0 <= i < n.ptrs.len(),
        unoffered(c.fs, c.pending, b, level, space),
        booked(
            c.fs,
            c.pending,
            n.ptrs[i].blockptr,
            (level - 1) as u8,
            space,
            child.emitted,
            child.freed,
            child.space,
        ),
        child.heads.len() > 0,
        grafted(
            c,
            q,
            n.ptrs[i].blockptr,
            (level - 1) as u8,
            if n.ptrs[i].key.ord() <= it.key.ord() {
                n.ptrs[i].key.ord()
            } else {
                it.key.ord()
            },
            bound(n.ptrs, i, hi),
            it,
            space,
            child,
        ),
        regrow(
            c,
            interior_of(n, c.fs.sb.csum_type),
            i,
            child,
            level,
            reusable(c, n, b),
            b,
        ) == Ok::<InsertV, Fault>(d),
        carries(q, d.emitted),
        keeps(c.fs, c.pending, q, b, level, d.emitted, d.freed),
    ensures
        grafted(c, q, b, level, lo, hi, it, space, d),
{
    let h = interior_of(n, c.fs.sb.csum_type);
    let reuse = reusable(c, n, b);
    let entries = grown(h.entries, i, child.heads, c.generation);
    let e = spliced(n.ptrs, i, row_of(child.heads, c.generation));
    let below = (level - 1) as u8;
    regrow_booked(c, space, b, level, n, i, lo, hi, child);
    sound_interior(c.fs, c.pending, b, level, lo, hi);
    header_of_node(c.fs, c.pending, b);
    assert(h.entries =~= entries_of_row(n.ptrs));
    if child.heads.len() <= 1 || interior_used(entries.len()) <= c.fs.sb.node_size {
        let s = spot(c, child.space, level, reuse, Some(b))->Some_0;
        let raw = write_interior(c, h, s.target, entries)->Ok_0;
        spot_facts(c, child.space, level, reuse, Some(b));
        assert forall|a: u64| !emits(child.emitted, a) && a != b && offered(child.space, a as int)
            == 0 implies !#[trigger] emits(d.emitted, a) by {
            emits_pushed(child.emitted, s.target, raw, a);
        }
        assert forall|a: u64| !frees(child.freed, a) && a != b implies !#[trigger] frees(
            d.freed,
            a,
        ) by {
            frees_joined(child.freed, s.freed, a);
            frees_one(b, level, a);
        }
        child_is_grafted(
            c,
            q,
            b,
            level,
            n,
            i,
            lo,
            hi,
            it,
            space,
            child,
            d.emitted,
            d.freed,
        );
        grown_is_spliced(n.ptrs, i, child.heads, c.generation);
        ptrs_of_entries(e);
        let last = child.emitted.len() as int;
        assert(d.emitted[last] == (s.target, raw));
        assert(q[d.emitted[last].0] == raw);
        interior_stands(c, q, h, s.target, entries, raw);
        assert(emits(d.emitted, s.target));
        assert(entries[0] == entry_of(e[0]));
        assert forall|a: u64| a == s.target || in_row(
            c.fs,
            q,
            e,
            below,
            a,
        ) implies #[trigger] offered(d.space, a as int) == 0 && (in_tree(
            c.fs,
            c.pending,
            b,
            level,
            a,
        ) || offered(space, a as int) > 0) && !frees(d.freed, a) by {
            if a != s.target {
                assert(offered(s.space, a as int) <= offered(child.space, a as int));
            }
        }
        regrown_whole(c, q, b, level, lo, hi, it, space, e, s.target, d);
    } else {
        let r = spot(c, child.space, level, None, None)->Some_0;
        let l = spot(c, r.space, level, reuse, Some(b))->Some_0;
        let mid = entries.len() as int / 2;
        let lraw = write_interior(c, h, l.target, entries.take(mid))->Ok_0;
        let rraw = write_interior(c, h, r.target, entries.skip(mid))->Ok_0;
        spot_facts(c, child.space, level, None, None);
        spot_facts(c, r.space, level, reuse, Some(b));
        assert(offered(r.space, l.target as int) <= offered(child.space, l.target as int));
        assert forall|a: u64| !emits(child.emitted, a) && a != b && offered(child.space, a as int)
            == 0 implies !#[trigger] emits(d.emitted, a) by {
            emits_pushed(child.emitted, l.target, lraw, a);
            emits_pushed(child.emitted.push((l.target, lraw)), r.target, rraw, a);
        }
        assert forall|a: u64| !frees(child.freed, a) && a != b implies !#[trigger] frees(
            d.freed,
            a,
        ) by {
            frees_joined(child.freed, l.freed, a);
            frees_one(b, level, a);
        }
        child_is_grafted(
            c,
            q,
            b,
            level,
            n,
            i,
            lo,
            hi,
            it,
            space,
            child,
            d.emitted,
            d.freed,
        );
        grown_is_spliced(n.ptrs, i, child.heads, c.generation);
        let last = child.emitted.len() as int;
        assert(d.emitted[last] == (l.target, lraw));
        assert(d.emitted[last + 1] == (r.target, rraw));
        assert(q[d.emitted[last].0] == lraw);
        assert(q[d.emitted[last + 1].0] == rraw);
        assert(d.emitted[last].0 != d.emitted[last + 1].0);
        assert(entries.len() == e.len());
        assert(entries.take(mid) =~= entries_of_row(e.take(mid)));
        assert(entries.skip(mid) =~= entries_of_row(e.skip(mid)));
        ptrs_of_entries(e.take(mid));
        ptrs_of_entries(e.skip(mid));
        interior_stands(c, q, h, l.target, entries.take(mid), lraw);
        interior_stands(c, q, h, r.target, entries.skip(mid), rraw);
        assert(emits(d.emitted, l.target));
        assert(emits(d.emitted, r.target));
        assert(entries[0] == entry_of(e[0]));
        assert(entries[mid] == entry_of(e[mid]));
        assert forall|a: u64| a == l.target || a == r.target || in_row(
            c.fs,
            q,
            e,
            below,
            a,
        ) implies #[trigger] offered(d.space, a as int) == 0 && (in_tree(
            c.fs,
            c.pending,
            b,
            level,
            a,
        ) || offered(space, a as int) > 0) && !frees(d.freed, a) by {
            if a != l.target && a != r.target {
                assert(offered(r.space, a as int) <= offered(child.space, a as int));
                assert(offered(l.space, a as int) <= offered(r.space, a as int));
            }
        }
        regrown_split(c, q, b, level, lo, hi, it, space, e, mid, l.target, r.target, d);
    }
}

/// What an insert comes to is booked.
pub proof fn insert_booked(
    c: Cow,
    space: Seq<BgV>,
    b: u64,
    level: u8,
    lo: int,
    hi: int,
    it: Item,
)
    requires
        c.fs.sb.node_size > 0,
        tidy(space),
        sound(c.fs, c.pending, b, level, lo, hi),
        unoffered(c.fs, c.pending, b, level, space),
        insert_below(c, space, b, level, it) is Ok,
    ensures
        ({
            let d = insert_below(c, space, b, level, it)->Ok_0;
            &&& booked(c.fs, c.pending, b, level, space, d.emitted, d.freed, d.space)
            &&& d.heads.len() > 0
        }),
    decreases level,
{
    reveal(insert_below);
    if level == 0 {
        sound_leaf(c.fs, c.pending, b, lo, hi);
        leaf_booked(c, space, b, node_at(c.fs, c.pending, b)->Ok_0, it);
    } else {
        sound_interior(c.fs, c.pending, b, level, lo, hi);
        let n = node_at(c.fs, c.pending, b)->Ok_0;
        let below = (level - 1) as u8;
        child_index_range(n.ptrs, it.key);
        let i = child_index(n.ptrs, it.key);
        let cb = n.ptrs[i].blockptr;
        child_unoffered(c, space, b, level, n, i);
        insert_booked(c, space, cb, below, n.ptrs[i].key.ord(), bound(n.ptrs, i, hi), it);
        let child = insert_below(c, space, cb, below, it)->Ok_0;
        regrow_booked(c, space, b, level, n, i, lo, hi, child);
    }
}

/// What an insert below a node comes to is a sound row that holds the item
/// besides all that was held before; and no item with that key was.
pub proof fn insert_grafted(
    c: Cow,
    space: Seq<BgV>,
    b: u64,
    level: u8,
    lo: int,
    hi: int,
    it: Item,
    q: Map<u64, Seq<u8>>,
)
    requires
        c.fs.sb.node_size > 0,
        tidy(space),
        sound(c.fs, c.pending, b, level, lo, hi),
        lo <= it.key.ord() < hi,
        unoffered(c.fs, c.pending, b, level, space),
        insert_below(c, space, b, level, it) is Ok,
        carries(q, insert_below(c, space, b, level, it)->Ok_0.emitted),
        keeps(
            c.fs,
            c.pending,
            q,
            b,
            level,
            insert_below(c, space, b, level, it)->Ok_0.emitted,
            insert_below(c, space, b, level, it)->Ok_0.freed,
        ),
    ensures
        grafted(c, q, b, level, lo, hi, it, space, insert_below(c, space, b, level, it)->Ok_0),
    decreases level,
{
    reveal(insert_below);
    if level == 0 {
        sound_leaf(c.fs, c.pending, b, lo, hi);
        leaf_grafted(
            c,
            space,
            b,
            node_at(c.fs, c.pending, b)->Ok_0,
            lo,
            hi,
            it,
            q,
        );
    } else {
        sound_interior(c.fs, c.pending, b, level, lo, hi);
        let n = node_at(c.fs, c.pending, b)->Ok_0;
        let below = (level - 1) as u8;
        child_index_range(n.ptrs, it.key);
        let i = child_index(n.ptrs, it.key);
        let cb = n.ptrs[i].blockptr;
        let up = bound(n.ptrs, i, hi);
        let from = if n.ptrs[i].key.ord() <= it.key.ord() {
            n.ptrs[i].key.ord()
        } else {
            it.key.ord()
        };
        child_unoffered(c, space, b, level, n, i);
        assert(sound(c.fs, c.pending, cb, below, n.ptrs[i].key.ord(), up));
        insert_booked(c, space, cb, below, n.ptrs[i].key.ord(), up, it);
        sound_wider(c.fs, c.pending, cb, below, n.ptrs[i].key.ord(), up, from, up);
        let child = insert_below(c, space, cb, below, it)->Ok_0;
        let d = insert_below(c, space, b, level, it)->Ok_0;
        regrow_booked(c, space, b, level, n, i, lo, hi, child);
        child_carried(c, q, space, b, level, n, i, lo, hi, child, d);
        insert_grafted(c, space, cb, below, from, up, it, q);
        regrow_grafted(c, space, b, level, n, i, lo, hi, it, child, q, d);
    }
}

/// Blocks that carry a change of the tree carry the change of its child.
proof fn child_carried(
    c: Cow,
    q: Map<u64, Seq<u8>>,
    space: Seq<BgV>,
    b: u64,
    level: u8,
    n: NodeV,
    i: int,
    lo: int,
    hi: int,
    child: InsertV,
    d: InsertV,
)
    requires
        level > 0,
        c.fs.sb.node_size > 0,
        node_at(c.fs, c.pending, b) == Ok::<NodeV, Fault>(n),
        sound(c.fs, c.pending, b, level, lo, hi),
        0 <= i < n.ptrs.len(),
        unoffered(c.fs, c.pending, b, level, space),
        booked(
            c.fs,
            c.pending,
            n.ptrs[i].blockptr,
            (level - 1) as u8,
            space,
            child.emitted,
            child.freed,
            child.space,
        ),
        regrow(
            c,
            interior_of(n, c.fs.sb.csum_type),
            i,
            child,
            level,
            reusable(c, n, b),
            b,
        ) == Ok::<InsertV, Fault>(d),
        carries(q, d.emitted),
        keeps(c.fs, c.pending, q, b, level, d.emitted, d.freed),
    ensures
        carries(q, child.emitted),
        keeps(
            c.fs,
            c.pending,
            q,
            n.ptrs[i].blockptr,
            (level - 1) as u8,
            child.emitted,
            child.freed,
        ),
{
    let h = interior_of(n, c.fs.sb.csum_type);
    let reuse = reusable(c, n, b);
    let below = (level - 1) as u8;
    let cb = n.ptrs[i].blockptr;
    let entries = grown(h.entries, i, child.heads, c.generation);
    tree_over_row(c.fs, c.pending, b, level, n);
    sound_interior(c.fs, c.pending, b, level, lo, hi);
    assert forall|j: int| 0 <= j < child.emitted.len() implies q.contains_key(
        (#[trigger] child.emitted[j]).0,
    ) && q[child.emitted[j].0] == child.emitted[j].1 by {
        assert(d.emitted[j] == child.emitted[j]);
    }
    assert forall|a: u64| #[trigger]
        in_tree(c.fs, c.pending, cb, below, a) && !emits(child.emitted, a) && !frees(
            child.freed,
            a,
        ) implies node_at(c.fs, q, a) == node_at(c.fs, c.pending, a) by {
        assert(in_row(c.fs, c.pending, n.ptrs, below, a));
        assert(in_tree(c.fs, c.pending, b, level, a));
        assert(a != b);
        assert(offered(space, a as int) == 0);
        assert(offered(child.space, a as int) <= offered(space, a as int));
        if child.heads.len() <= 1 || interior_used(entries.len()) <= c.fs.sb.node_size {
            let s = spot(c, child.space, level, reuse, Some(b))->Some_0;
            let raw = write_interior(c, h, s.target, entries)->Ok_0;
            spot_facts(c, child.space, level, reuse, Some(b));
            emits_pushed(child.emitted, s.target, raw, a);
            frees_joined(child.freed, s.freed, a);
            frees_one(b, level, a);
        } else {
            let r = spot(c, child.space, level, None, None)->Some_0;
            let l = spot(c, r.space, level, reuse, Some(b))->Some_0;
            let mid = entries.len() as int / 2;
            let lraw = write_interior(c, h, l.target, entries.take(mid))->Ok_0;
            let rraw = write_interior(c, h, r.target, entries.skip(mid))->Ok_0;
            spot_facts(c, child.space, level, None, None);
            spot_facts(c, r.space, level, reuse, Some(b));
            assert(offered(r.space, a as int) <= offered(child.space, a as int));
            emits_pushed(child.emitted, l.target, lraw, a);
            emits_pushed(child.emitted.push((l.target, lraw)), r.target, rraw, a);
            frees_joined(child.freed, l.freed, a);
            frees_one(b, level, a);
        }
    }
}

/// A leaf without a key does not hold it.
proof fn leaf_was_absent(items: Seq<Item>, key: Key, x: Seq<u8>)
    requires
        items_ascend(items),
        !has_key(items, key),
    ensures
        !items.contains(Item { key, data: x }),
{
    if items.contains(Item { key, data: x }) {
        let i = choose|i: int| 0 <= i < items.len() && items[i] == (Item { key, data: x });
        slot_bounds(items, key);
        let s = slot(items, key);
        if i < s {
            assert(items[i].key.ord() < key.ord());
        } else if i > s {
            assert(items[s].key.ord() < items[i].key.ord());
        }
    }
}

/// An insert succeeds only where no item with the key was held.
pub proof fn insert_was_absent(
    c: Cow,
    space: Seq<BgV>,
    b: u64,
    level: u8,
    lo: int,
    hi: int,
    it: Item,
    x: Seq<u8>,
)
    requires
        sound(c.fs, c.pending, b, level, lo, hi),
        insert_below(c, space, b, level, it) is Ok,
    ensures
        !holds(c.fs, c.pending, b, level, it.key, x),
    decreases level,
{
    let n = node_at(c.fs, c.pending, b)->Ok_0;
    if level == 0 {
        assert(leaf_groups(n.items, it, c.fs.sb.node_size) is Ok) by {
            reveal(insert_below);
            sound_leaf(c.fs, c.pending, b, lo, hi);
        }
        sound_leaf(c.fs, c.pending, b, lo, hi);
        groups_join(n.items, it, c.fs.sb.node_size);
        leaf_was_absent(n.items, it.key, x);
    } else {
        let below = (level - 1) as u8;
        let i = child_index(n.ptrs, it.key);
        sound_interior(c.fs, c.pending, b, level, lo, hi);
        child_index_range(n.ptrs, it.key);
        assert(insert_below(c, space, n.ptrs[i].blockptr, below, it) is Ok) by {
            reveal(insert_below);
        }
        assert(sound(
            c.fs,
            c.pending,
            n.ptrs[i].blockptr,
            below,
            n.ptrs[i].key.ord(),
            bound(n.ptrs, i, hi),
        ));
        insert_was_absent(
            c,
            space,
            n.ptrs[i].blockptr,
            below,
            n.ptrs[i].key.ord(),
            bound(n.ptrs, i, hi),
            it,
            x,
        );
        tree_over_row(c.fs, c.pending, b, level, n);
        if row_holds(c.fs, c.pending, n.ptrs, below, it.key, x) {
            let j = choose|j: int|
                0 <= j < n.ptrs.len() && holds(
                    c.fs,
                    c.pending,
                    (#[trigger] n.ptrs[j]).blockptr,
                    below,
                    it.key,
                    x,
                );
            held_by_one(c.fs, c.pending, n.ptrs, below, hi, it.key, j, x);
        }
    }
}

/// What inserting into a tree comes to is booked, and the tree grows by one
/// level at most.
pub proof fn tree_insert_booked(c: Cow, space: Seq<BgV>, root: u64, level: u8, it: Item)
    requires
        c.fs.sb.node_size > 0,
        tidy(space),
        level < 255,
        sound(c.fs, c.pending, root, level, 0, keys_end()),
        unoffered(c.fs, c.pending, root, level, space),
        tree_insert(c, space, root, level, it) is Ok,
    ensures
        ({
            let r = tree_insert(c, space, root, level, it)->Ok_0;
            &&& booked(c.fs, c.pending, root, level, space, r.emitted, r.freed, r.space)
            &&& r.level == level || r.level == level + 1
        }),
{
    reveal(tree_insert);
    insert_booked(c, space, root, level, 0, keys_end(), it);
    let d = insert_below(c, space, root, level, it)->Ok_0;
    let node = node_at(c.fs, c.pending, root)->Ok_0;
    if level == 0 {
        sound_leaf(c.fs, c.pending, root, 0, keys_end());
    } else {
        sound_interior(c.fs, c.pending, root, level, 0, keys_end());
    }
    if d.heads.len() > 1 {
        let above = if node.nr_items() == 0 {
            1u8
        } else {
            level.saturating_add(1)
        };
        let s = spot(c, d.space, above, None, None)->Some_0;
        let raw = write_interior(
            c,
            root_header(c, node, above),
            s.target,
            entries_for(d.heads, c.generation),
        )->Ok_0;
        assert(in_tree(c.fs, c.pending, root, level, root));
        assert(offered(d.space, root as int) <= offered(space, root as int));
        booked_more(
            c,
            root,
            level,
            space,
            d.emitted,
            d.freed,
            d.space,
            above,
            None,
            None,
            raw,
        );
        spot_facts(c, d.space, above, None, None);
        assert(d.freed + s.freed =~= d.freed);
    }
}

/// A tree that took an item holds it besides all that it held before.
pub proof fn tree_insert_grafted(
    c: Cow,
    space: Seq<BgV>,
    root: u64,
    level: u8,
    it: Item,
    q: Map<u64, Seq<u8>>,
)
    requires
        c.fs.sb.node_size > 0,
        tidy(space),
        level < 255,
        sound(c.fs, c.pending, root, level, 0, keys_end()),
        unoffered(c.fs, c.pending, root, level, space),
        tree_insert(c, space, root, level, it) is Ok,
        carries(q, tree_insert(c, space, root, level, it)->Ok_0.emitted),
        keeps(
            c.fs,
            c.pending,
            q,
            root,
            level,
            tree_insert(c, space, root, level, it)->Ok_0.emitted,
            tree_insert(c, space, root, level, it)->Ok_0.freed,
        ),
    ensures
        ({
            let r = tree_insert(c, space, root, level, it)->Ok_0;
            &&& regrown(c.fs, c.pending, q, root, level, space, r)
            &&& forall|k: Key, x: Seq<u8>| #[trigger]
                holds(c.fs, q, r.root, r.level, k, x) == ((k == it.key && x == it.data) || holds(
                    c.fs,
                    c.pending,
                    root,
                    level,
                    k,
                    x,
                ))
        }),
{
    reveal(tree_insert);
    let fs = c.fs;
    let p = c.pending;
    let r = tree_insert(c, space, root, level, it)->Ok_0;
    let d = insert_below(c, space, root, level, it)->Ok_0;
    let node = node_at(fs, p, root)->Ok_0;
    key_in_range(it.key);
    insert_booked(c, space, root, level, 0, keys_end(), it);
    if level == 0 {
        sound_leaf(fs, p, root, 0, keys_end());
    } else {
        sound_interior(fs, p, root, level, 0, keys_end());
    }
    let row = row_of(d.heads, c.generation);
    if d.heads.len() > 1 {
        let above = if node.nr_items() == 0 {
            1u8
        } else {
            level.saturating_add(1)
        };
        let h = root_header(c, node, above);
        let entries = entries_for(d.heads, c.generation);
        let s = spot(c, d.space, above, None, None)->Some_0;
        let raw = write_interior(c, h, s.target, entries)->Ok_0;
        spot_facts(c, d.space, above, None, None);
        let last = d.emitted.len() as int;
        assert(r.emitted[last] == (s.target, raw));
        assert(q[r.emitted[last].0] == raw);
        assert forall|j: int| 0 <= j < d.emitted.len() implies q.contains_key(
            (#[trigger] d.emitted[j]).0,
        ) && q[d.emitted[j].0] == d.emitted[j].1 by {
            assert(r.emitted[j] == d.emitted[j]);
        }
        assert forall|a: u64| #[trigger]
            in_tree(fs, p, root, level, a) && !emits(d.emitted, a) && !frees(
                d.freed,
                a,
            ) implies node_at(fs, q, a) == node_at(fs, p, a) by {
            emits_pushed(d.emitted, s.target, raw, a);
            assert(offered(d.space, a as int) <= offered(space, a as int));
        }
        insert_grafted(c, space, root, level, 0, keys_end(), it, q);
        header_of_node(fs, p, root);
        assert(entries.map_values(|e: InteriorEntry| ptr_of(e)) =~= row);
        interior_stands(c, q, h, s.target, entries, raw);
        assert(!in_row(fs, q, row, level, s.target)) by {
            if in_row(fs, q, row, level, s.target) {
                assert(offered(d.space, s.target as int) == 0);
            }
        }
        assert((above - 1) as u8 == level);
        node_over_row(fs, q, s.target, above, row, keys_end());
        sound_wider(fs, q, s.target, above, row[0].key.ord(), keys_end(), 0, keys_end());
        assert forall|a: u64| #[trigger] in_tree(fs, q, r.root, r.level, a) implies offered(
            r.space,
            a as int,
        ) == 0 && !frees(r.freed, a) && (in_tree(fs, p, root, level, a) || offered(
            space,
            a as int,
        ) > 0) by {
            if a == s.target {
                assert(offered(d.space, a as int) <= offered(space, a as int));
                if frees(d.freed, a) {
                    assert(in_tree(fs, p, root, level, a));
                }
            } else {
                assert(in_row(fs, q, row, level, a));
                assert(offered(s.space, a as int) <= offered(d.space, a as int));
            }
        }
    } else {
        insert_grafted(c, space, root, level, 0, keys_end(), it, q);
        assert(row.len() == 1 && row[0].blockptr == r.root);
        assert(sound(fs, q, row[0].blockptr, level, row[0].key.ord(), bound(row, 0, keys_end())));
        sound_wider(fs, q, r.root, level, row[0].key.ord(), keys_end(), 0, keys_end());
        assert forall|k: Key, x: Seq<u8>| #[trigger] holds(fs, q, r.root, r.level, k, x) == ((k
            == it.key && x == it.data) || holds(fs, p, root, level, k, x)) by {
            assert(row_holds(fs, q, row, level, k, x) == ((k == it.key && x == it.data) || holds(
                fs,
                p,
                root,
                level,
                k,
                x,
            )));
            if holds(fs, q, r.root, level, k, x) {
                assert(holds(fs, q, row[0].blockptr, level, k, x));
            }
        }
        assert forall|a: u64| #[trigger] in_tree(fs, q, r.root, r.level, a) implies offered(
            r.space,
            a as int,
        ) == 0 && !frees(r.freed, a) && (in_tree(fs, p, root, level, a) || offered(
            space,
            a as int,
        ) > 0) by {
            assert(in_tree(fs, q, row[0].blockptr, level, a));
            assert(in_row(fs, q, row, level, a));
        }
    }
}

} // verus!
