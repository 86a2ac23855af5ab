//! The used counters of the block groups: they say how much the extent tree
//! records.

use vstd::prelude::*;

use crate::fs::btrfs::search::find_item;
use crate::fs::btrfs::tree::{Item, Key};
use crate::fs::btrfs::volume::FsV;
use crate::fs::btrfs::write::booking::frees;
use crate::fs::btrfs::write::cow::{tree_edit, tree_insert, Cow, CowV};
use crate::fs::btrfs::write::custody::{noted, step_notes};
use crate::fs::btrfs::write::edit::EditV;
use crate::fs::btrfs::write::granting::{edit_grants, granted, insert_grants};
use crate::fs::btrfs::write::handout::{lies_in, metadata_is_handed_out, offered};
use crate::fs::btrfs::write::ranges::{
    align_up_bounds, gap, range_sum, range_sum_bound, FreeRange,
};
use crate::fs::btrfs::write::space::{
    alloc_meta, carve_bg, first_fit, fit, fit_idx, free_block, free_extent, has_room,
    metadata_flag, pin_bg, room_idx, BgV,
};
use crate::fs::btrfs::write::tree_map::{orderly, stays_low, step_on_map, steps_on_map};
use crate::fs::btrfs::write::workspace::{
    absorbed, at_block, claim_all, drop_block, drop_blocks, edit_step, insert_step, owned,
    recorded, step, steps, OpV, StateV,
};
use crate::seqs::{first_idx, first_idx_is, first_idx_props};

verus! {

/// Two maps are over the same block groups.
pub open spec fn same_groups(m: Seq<BgV>, n: Seq<BgV>) -> bool {
    &&& m.len() == n.len()
    &&& forall|g: int|
        0 <= g < m.len() ==> (#[trigger] m[g]).group.start == n[g].group.start && m[g].group.length
            == n[g].group.length
}

/// The group that holds the `size` bytes at `a`, as an index; the number of
/// groups where none does.
pub open spec fn home(m: Seq<BgV>, a: u64, size: int) -> int {
    first_idx(m, |x: BgV| a + size <= u64::MAX && x.contains(a, (a + size) as u64))
}

/// What the `size` bytes at `a` add to the counter of group `g`.
pub open spec fn share(m: Seq<BgV>, a: u64, size: int, g: int) -> int {
    if home(m, a, size) == g {
        size
    } else {
        0
    }
}

/// No two groups share an address.
pub open spec fn groups_apart(m: Seq<BgV>) -> bool {
    forall|g: int, h: int|
        0 <= g < h < m.len() ==> (#[trigger] m[g]).end() <= (#[trigger] m[h]).group.start
            || m[h].end() <= m[g].group.start
}

/// A group is not empty, its free ranges lie in it, and what is free and what is
/// used of it can be counted.
pub open spec fn well_kept(b: BgV) -> bool {
    &&& b.group.start < b.end()
    &&& forall|i: int|
        0 <= i < b.free.len() ==> b.group.start <= (#[trigger] b.free[i]).start
            && b.free[i].start + b.free[i].length <= b.end()
    &&& b.group.used + range_sum(b.free) <= u64::MAX
}

/// A map whose groups lie apart, each of them well kept.
pub open spec fn countable(m: Seq<BgV>) -> bool {
    &&& groups_apart(m)
    &&& forall|g: int| 0 <= g < m.len() ==> well_kept(#[trigger] m[g])
}

/// Where an extent lies does not depend on what is free or used.
pub proof fn home_same(m: Seq<BgV>, n: Seq<BgV>, a: u64, size: int)
    requires
        same_groups(m, n),
    ensures
        home(m, a, size) == home(n, a, size),
{
    let f = |x: BgV| a + size <= u64::MAX && x.contains(a, (a + size) as u64);
    first_idx_props(m, f);
    let p = first_idx(m, f);
    assert forall|j: int| 0 <= j < p implies !f(#[trigger] n[j]) by {
        assert(!f(m[j]));
    }
    if p < m.len() {
        assert(f(m[p]));
        assert(f(n[p]));
    }
    first_idx_is(n, f, p);
}

proof fn range_sum_joined(p: Seq<FreeRange>, q: Seq<FreeRange>)
    ensures
        range_sum(p + q) == range_sum(p) + range_sum(q),
    decreases q.len(),
{
    if q.len() == 0 {
        assert(p + q =~= p);
    } else {
        assert((p + q).drop_last() =~= p + q.drop_last());
        range_sum_joined(p, q.drop_last());
    }
}

proof fn range_sum_one(r: FreeRange)
    ensures
        range_sum(seq![r]) == r.length,
{
    assert(seq![r].drop_last() =~= Seq::<FreeRange>::empty());
    assert(range_sum(seq![r].drop_last()) == 0);
}

proof fn range_sum_between(x: u64, y: u64)
    requires
        x <= y,
    ensures
        range_sum(gap(x, y)) == y - x,
{
    if x < y {
        range_sum_one(FreeRange { start: x, length: (y - x) as u64 });
    }
}

/// Taking bytes out of a free range keeps a group well kept, and counts them.
proof fn carved_is_well_kept(b: BgV, i: int, x: u64, y: u64)
    requires
        well_kept(b),
        0 <= i < b.free.len(),
        b.free[i].start <= x <= y <= b.free[i].spec_end(),
    ensures
        well_kept(carve_bg(b, i, x, y)),
        carve_bg(b, i, x, y).group.used == b.group.used + (y - x),
        b.contains(x, y),
{
    let r = b.free[i];
    let free = b.free;
    let head = free.take(i);
    let tail = free.skip(i + 1);
    let lo = gap(r.start, x);
    let hi = gap(y, r.spec_end());
    assert(free =~= head + seq![r] + tail);
    range_sum_joined(head + seq![r], tail);
    range_sum_joined(head, seq![r]);
    range_sum_one(r);
    range_sum_joined(head + lo + hi, tail);
    range_sum_joined(head + lo, hi);
    range_sum_joined(head, lo);
    range_sum_between(r.start, x);
    range_sum_between(y, r.spec_end());
    let c = carve_bg(b, i, x, y);
    range_sum_bound(c.free);
    assert(range_sum(c.free) == range_sum(free) - (y - x));
    assert forall|j: int| 0 <= j < c.free.len() implies c.group.start <= (
    #[trigger] c.free[j]).start && c.free[j].start + c.free[j].length <= c.end() by {
        if j < i {
            assert(c.free[j] == free[j]);
        } else if j < i + lo.len() + hi.len() {
            assert(c.free[j] == (lo + hi)[j - i]);
        } else {
            assert(c.free[j] == tail[j - i - lo.len() - hi.len()]);
            assert(c.free[j] == free[j - lo.len() - hi.len() + 1]);
        }
    }
}

proof fn updated_is_countable(m: Seq<BgV>, p: int, b: BgV)
    requires
        countable(m),
        0 <= p < m.len(),
        b.group.start == m[p].group.start,
        b.group.length == m[p].group.length,
        well_kept(b),
    ensures
        countable(m.update(p, b)),
        same_groups(m, m.update(p, b)),
{
    let n = m.update(p, b);
    assert forall|g: int| 0 <= g < n.len() implies well_kept(#[trigger] n[g]) by {
        if g != p {
            assert(n[g] == m[g]);
        }
    }
    assert forall|g: int, h: int| 0 <= g < h < n.len() implies (#[trigger] n[g]).end() <= (
    #[trigger] n[h]).group.start || n[h].end() <= n[g].group.start by {
        assert(m[g].end() == n[g].end());
        assert(m[h].end() == n[h].end());
    }
}

/// What first fit hands out is counted in the group that it lies in.
pub proof fn first_fit_counts(m: Seq<BgV>, flag: u64, needed: u64, al: u64, g: int)
    requires
        countable(m),
        needed > 0,
        0 <= g < m.len(),
        first_fit(m, flag, needed, al) is Some,
    ensures
        ({
            let (x, rest) = first_fit(m, flag, needed, al)->Some_0;
            &&& countable(rest)
            &&& same_groups(m, rest)
            &&& rest[g].group.used == m[g].group.used + share(m, x, needed as int, g)
        }),
{
    let p = room_idx(m, flag, needed, al);
    first_idx_props(m, |b: BgV| has_room(b, flag, needed, al));
    first_idx_props(m[p].free, |r: FreeRange| fit(r, needed, al) is Some);
    let i = fit_idx(m[p].free, needed, al);
    let x = fit(m[p].free[i], needed, al)->Some_0;
    align_up_bounds(m[p].free[i].start, al);
    let y = (x + needed) as u64;
    assert(well_kept(m[p]));
    carved_is_well_kept(m[p], i, x, y);
    updated_is_countable(m, p, carve_bg(m[p], i, x, y));
    let f = |b: BgV| x + needed as int <= u64::MAX && b.contains(x, (x + needed as int) as u64);
    assert forall|j: int| 0 <= j < p implies !f(#[trigger] m[j]) by {
        assert(m[j].end() <= m[p].group.start || m[p].end() <= m[j].group.start);
    }
    first_idx_is(m, f, p);
    assert(home(m, x, needed as int) == p);
}

/// Handing out a block counts it in the group that it lies in.
pub proof fn alloc_counts(m: Seq<BgV>, size: u32, owner: u64, g: int)
    requires
        countable(m),
        size > 0,
        0 <= g < m.len(),
        alloc_meta(m, size, owner) is Some,
    ensures
        ({
            let (x, rest) = alloc_meta(m, size, owner)->Some_0;
            &&& countable(rest)
            &&& same_groups(m, rest)
            &&& rest[g].group.used == m[g].group.used + share(m, x, size as int, g)
        }),
{
    reveal(alloc_meta);
    first_fit_counts(m, metadata_flag(owner), size as u64, size as u64, g);
}

/// Giving a data extent up takes it off the counter of the group that it lies in.
pub proof fn free_extent_counts(m: Seq<BgV>, a: u64, size: u64, g: int)
    requires
        countable(m),
        0 <= g < m.len(),
        free_extent(m, a, size) is Ok,
    ensures
        ({
            let rest = free_extent(m, a, size)->Ok_0;
            &&& countable(rest)
            &&& same_groups(m, rest)
            &&& rest[g].group.used == m[g].group.used - share(m, a, size as int, g)
        }),
{
    reveal(free_extent);
    if size > 0 {
        let b = (a + size) as u64;
        let f = |x: BgV| x.contains(a, b);
        let p = first_idx(m, f);
        first_idx_props(m, f);
        let h = |x: BgV| a + size as int <= u64::MAX && x.contains(a, (a + size as int) as u64);
        assert(home(m, a, size as int) == p) by {
            assert(f =~= h);
        }
        let c = pin_bg(m[p], a, size);
        assert(well_kept(m[p]));
        assert(well_kept(c));
        updated_is_countable(m, p, c);
    }
}

/// Giving a block up takes it off the counter of the group that it lies in,
/// where that counts so much.
pub proof fn free_counts(m: Seq<BgV>, a: u64, size: u32, g: int)
    requires
        countable(m),
        0 <= g < m.len(),
        share(m, a, size as int, g) <= m[g].group.used,
    ensures
        countable(free_block(m, a, size)),
        same_groups(m, free_block(m, a, size)),
        free_block(m, a, size)[g].group.used == m[g].group.used - share(m, a, size as int, g),
{
    reveal(free_block);
    let f = |x: BgV| a + size <= u64::MAX && x.contains(a, (a + size) as u64);
    let p = first_idx(m, f);
    first_idx_props(m, f);
    assert(home(m, a, size as int) == p) by {
        let h = |x: BgV| a + size as int <= u64::MAX && x.contains(a, (a + size as int) as u64);
        assert(f =~= h);
    }
    if p < m.len() {
        let b = pin_bg(m[p], a, size as u64);
        assert(well_kept(m[p]));
        assert(well_kept(b));
        updated_is_countable(m, p, b);
    }
}

/// What the blocks at `at` add to the counter of group `g`.
pub open spec fn bulk(m: Seq<BgV>, at: Seq<u64>, size: int, g: int) -> int
    decreases at.len(),
{
    if at.len() == 0 {
        0
    } else {
        bulk(m, at.drop_last(), size, g) + share(m, at.last(), size, g)
    }
}

/// Where blocks that are noted as built lie.
pub open spec fn sites(add: Seq<(u64, u8, u64)>) -> Seq<u64> {
    add.map_values(|x: (u64, u8, u64)| x.0)
}

/// Where blocks that are handed out or given up lie.
pub open spec fn places(blocks: Seq<(u64, u8)>) -> Seq<u64> {
    blocks.map_values(|x: (u64, u8)| x.0)
}

/// Two lists of blocks add up.
pub proof fn bulk_joined(m: Seq<BgV>, p: Seq<u64>, q: Seq<u64>, size: int, g: int)
    requires
        size >= 0,
    ensures
        bulk(m, p + q, size, g) == bulk(m, p, size, g) + bulk(m, q, size, g),
        bulk(m, q, size, g) >= 0,
    decreases q.len(),
{
    if q.len() == 0 {
        assert(p + q =~= p);
    } else {
        assert((p + q).drop_last() =~= p + q.drop_last());
        bulk_joined(m, p, q.drop_last(), size, g);
    }
}

/// One more block adds its share.
pub proof fn bulk_pushed(m: Seq<BgV>, p: Seq<u64>, a: u64, size: int, g: int)
    ensures
        bulk(m, p.push(a), size, g) == bulk(m, p, size, g) + share(m, a, size, g),
{
    assert(p.push(a).drop_last() =~= p);
}

proof fn bulk_without(m: Seq<BgV>, p: Seq<u64>, i: int, size: int, g: int)
    requires
        size >= 0,
        0 <= i < p.len(),
    ensures
        bulk(m, p.remove(i), size, g) == bulk(m, p, size, g) - share(m, p[i], size, g),
        bulk(m, p, size, g) >= share(m, p[i], size, g),
{
    let head = p.take(i);
    let tail = p.skip(i + 1);
    assert(p =~= head.push(p[i]) + tail);
    assert(p.remove(i) =~= head + tail);
    bulk_joined(m, head.push(p[i]), tail, size, g);
    bulk_joined(m, head, tail, size, g);
    bulk_joined(m, Seq::empty(), head, size, g);
    bulk_pushed(m, head, p[i], size, g);
}

/// The counter of group `g` is right, where the extent tree records `k` bytes in
/// it: the blocks that are noted as built are counted and those that are noted
/// as given up are not.
pub open spec fn balanced(base: Seq<BgV>, size: u32, g: int, s: StateV, k: int) -> bool {
    &&& same_groups(base, s.space)
    &&& countable(s.space)
    &&& s.space[g].group.used + bulk(base, places(s.remove), size as int, g) == k + bulk(
        base,
        sites(s.add),
        size as int,
        g,
    )
}

proof fn grants_count(
    base: Seq<BgV>,
    space: Seq<BgV>,
    size: u32,
    owner: u64,
    blocks: Seq<(u64, u8)>,
    g: int,
)
    requires
        same_groups(base, space),
        countable(space),
        size > 0,
        0 <= g < base.len(),
        granted(space, size, owner, blocks) is Some,
    ensures
        ({
            let rest = granted(space, size, owner, blocks)->Some_0;
            &&& same_groups(base, rest)
            &&& countable(rest)
            &&& rest[g].group.used == space[g].group.used + bulk(
                base,
                places(blocks),
                size as int,
                g,
            )
        }),
    decreases blocks.len(),
{
    if blocks.len() > 0 {
        let front = blocks.drop_last();
        grants_count(base, space, size, owner, front, g);
        let mid = granted(space, size, owner, front)->Some_0;
        alloc_counts(mid, size, owner, g);
        home_same(base, mid, blocks.last().0, size as int);
        assert(places(blocks) =~= places(front).push(blocks.last().0));
        bulk_pushed(base, places(front), blocks.last().0, size as int, g);
    }
}

proof fn drop_balances(
    base: Seq<BgV>,
    size: u32,
    g: int,
    s: StateV,
    b: u64,
    level: u8,
    k: int,
)
    requires
        0 <= g < base.len(),
        balanced(base, size, g, s, k),
        bulk(base, places(drop_block(s, b, level, size).remove), size as int, g) <= k,
    ensures
        balanced(base, size, g, drop_block(s, b, level, size), k),
{
    let t = drop_block(s, b, level, size);
    let p = first_idx(s.add, at_block(b));
    first_idx_props(s.add, at_block(b));
    home_same(base, s.space, b, size as int);
    bulk_joined(base, Seq::empty(), sites(s.add), size as int, g);
    if p < s.add.len() {
        bulk_without(base, sites(s.add), p, size as int, g);
        assert(sites(s.add)[p] == b);
        assert(sites(s.add.remove(p)) =~= sites(s.add).remove(p));
    } else {
        assert(places(t.remove) =~= places(s.remove).push(b));
        bulk_pushed(base, places(s.remove), b, size as int, g);
    }
    free_counts(s.space, b, size, g);
}

/// Giving blocks up only adds to the list of those to be taken off.
proof fn drops_extend(s: StateV, freed: Seq<(u64, u8)>, size: u32)
    ensures
        s.remove.is_prefix_of(drop_blocks(s, freed, size).remove),
    decreases freed.len(),
{
    if freed.len() > 0 {
        drops_extend(s, freed.drop_last(), size);
    }
}

/// A leading part of a list adds no more than the list.
pub proof fn bulk_of_prefix(m: Seq<BgV>, p: Seq<(u64, u8)>, q: Seq<(u64, u8)>, size: int, g: int)
    requires
        size >= 0,
        p.is_prefix_of(q),
    ensures
        bulk(m, places(p), size, g) <= bulk(m, places(q), size, g),
{
    assert(places(q) =~= places(p) + places(q.skip(p.len() as int)));
    bulk_joined(m, places(p), places(q.skip(p.len() as int)), size, g);
}

proof fn drops_balance(
    base: Seq<BgV>,
    size: u32,
    g: int,
    s: StateV,
    freed: Seq<(u64, u8)>,
    k: int,
)
    requires
        0 <= g < base.len(),
        balanced(base, size, g, s, k),
        bulk(base, places(drop_blocks(s, freed, size).remove), size as int, g) <= k,
    ensures
        balanced(base, size, g, drop_blocks(s, freed, size), k),
    decreases freed.len(),
{
    if freed.len() > 0 {
        let front = freed.drop_last();
        let t = drop_blocks(s, front, size);
        let u = drop_blocks(s, freed, size);
        bulk_of_prefix(base, t.remove, u.remove, size as int, g);
        drops_balance(base, size, g, s, front, k);
        drop_balances(base, size, g, t, freed.last().0, freed.last().1, k);
    }
}

proof fn recorded_balances(
    base: Seq<BgV>,
    size: u32,
    g: int,
    s: StateV,
    r: CowV,
    owner: u64,
    k: int,
)
    requires
        size > 0,
        0 <= g < base.len(),
        granted(s.space, size, owner, r.allocated) == Some(r.space),
    ensures
        ({
            let t = recorded(s, r, size, owner);
            &&& s.remove.is_prefix_of(t.remove)
            &&& balanced(base, size, g, s, k) && bulk(
                base,
                places(t.remove),
                size as int,
                g,
            ) <= k ==> balanced(base, size, g, t, k)
        }),
{
    let a = StateV { add: s.add + owned(r.allocated, owner), space: r.space, ..s };
    drops_extend(a, r.freed, size);
    if balanced(base, size, g, s, k) && bulk(
        base,
        places(recorded(s, r, size, owner).remove),
        size as int,
        g,
    ) <= k {
        grants_count(base, s.space, size, owner, r.allocated, g);
        assert(sites(a.add) =~= sites(s.add) + places(r.allocated));
        bulk_joined(base, sites(s.add), places(r.allocated), size as int, g);
        drops_balance(base, size, g, a, r.freed, k);
    }
}

/// Block `b` is neither free nor noted as built.
pub open spec fn untouched(s: StateV, b: u64) -> bool {
    offered(s.space, b as int) == 0 && !noted(s.add, b)
}

/// No block that is noted as given up is free, or noted as built.
pub open spec fn parted(s: StateV) -> bool {
    forall|b: u64| #[trigger] frees(s.remove, b) ==> untouched(s, b)
}

/// What is untouched stays so.
pub open spec fn stays_untouched(s: StateV, t: StateV) -> bool {
    forall|b: u64| untouched(s, b) ==> #[trigger] untouched(t, b)
}

/// What is handed out was free.
pub proof fn granted_was_free(
    space: Seq<BgV>,
    size: u32,
    owner: u64,
    blocks: Seq<(u64, u8)>,
    i: int,
)
    requires
        size > 0,
        granted(space, size, owner, blocks) is Some,
        0 <= i < blocks.len(),
    ensures
        offered(space, blocks[i].0 as int) > 0,
    decreases blocks.len(),
{
    let front = blocks.drop_last();
    let mid = granted(space, size, owner, front)->Some_0;
    if i < front.len() {
        granted_was_free(space, size, owner, front, i);
        assert(front[i] == blocks[i]);
    } else {
        let x = blocks.last().0 as int;
        metadata_is_handed_out(mid, size, owner);
        let rest = alloc_meta(mid, size, owner)->Some_0.1;
        assert(lies_in(x, x, size as int));
        assert(offered(rest, x) == offered(mid, x) - 1);
        granted_takes(space, size, owner, front, x);
    }
}

proof fn granted_takes(
    space: Seq<BgV>,
    size: u32,
    owner: u64,
    blocks: Seq<(u64, u8)>,
    a: int,
)
    requires
        granted(space, size, owner, blocks) is Some,
    ensures
        offered(granted(space, size, owner, blocks)->Some_0, a) <= offered(space, a),
    decreases blocks.len(),
{
    if blocks.len() > 0 {
        let front = blocks.drop_last();
        granted_takes(space, size, owner, front, a);
        let mid = granted(space, size, owner, front)->Some_0;
        metadata_is_handed_out(mid, size, owner);
        let rest = alloc_meta(mid, size, owner)->Some_0.1;
        assert(offered(rest, a) <= offered(mid, a));
    }
}

/// Whether lists of blocks to record and to take off have no block in common.
spec fn unmixed(s: StateV) -> bool {
    forall|b: u64| #[trigger] frees(s.remove, b) ==> !noted(s.add, b)
}

proof fn drops_unmixed(s: StateV, freed: Seq<(u64, u8)>, size: u32)
    requires
        unmixed(s),
    ensures
        unmixed(drop_blocks(s, freed, size)),
        forall|b: u64| #[trigger] noted(drop_blocks(s, freed, size).add, b) ==> noted(s.add, b),
    decreases freed.len(),
{
    if freed.len() > 0 {
        drops_unmixed(s, freed.drop_last(), size);
        let t = drop_blocks(s, freed.drop_last(), size);
        let (b, level) = freed.last();
        let u = drop_block(t, b, level, size);
        let p = first_idx(t.add, at_block(b));
        first_idx_props(t.add, at_block(b));
        assert forall|x: u64| #[trigger] frees(u.remove, x) implies !noted(u.add, x) by {
            if noted(u.add, x) {
                let j = choose|j: int| 0 <= j < u.add.len() && (#[trigger] u.add[j]).0 == x;
                if p < t.add.len() {
                    let l = if j < p {
                        j
                    } else {
                        j + 1
                    };
                    assert(t.add[l].0 == x);
                    assert(noted(t.add, x));
                    assert(frees(t.remove, x));
                } else {
                    let i = choose|i: int|
                        0 <= i < u.remove.len() && (#[trigger] u.remove[i]).0 == x;
                    if i < t.remove.len() {
                        assert(t.remove[i].0 == x);
                        assert(frees(t.remove, x));
                    } else {
                        assert(at_block(b)(t.add[j]));
                    }
                }
            }
        }
        assert forall|x: u64| #[trigger] noted(u.add, x) implies noted(s.add, x) by {
            let j = choose|j: int| 0 <= j < u.add.len() && (#[trigger] u.add[j]).0 == x;
            let l = if p < t.add.len() && j >= p {
                j + 1
            } else {
                j
            };
            assert(t.add[l].0 == x);
            assert(noted(t.add, x));
        }
    }
}

proof fn recorded_unmixed(s: StateV, r: CowV, size: u32, owner: u64)
    requires
        size > 0,
        parted(s),
        granted(s.space, size, owner, r.allocated) == Some(r.space),
    ensures
        unmixed(recorded(s, r, size, owner)),
        forall|b: u64| untouched(s, b) ==> !#[trigger] noted(recorded(s, r, size, owner).add, b),
{
    let a = StateV { add: s.add + owned(r.allocated, owner), space: r.space, ..s };
    assert forall|b: u64| untouched(s, b) implies !#[trigger] noted(a.add, b) by {
        if noted(a.add, b) {
            let j = choose|j: int| 0 <= j < a.add.len() && (#[trigger] a.add[j]).0 == b;
            if j < s.add.len() {
                assert(s.add[j].0 == b);
                assert(noted(s.add, b));
            } else {
                let i = j - s.add.len();
                assert(a.add[j] == owned(r.allocated, owner)[i]);
                granted_was_free(s.space, size, owner, r.allocated, i);
            }
        }
    }
    assert forall|b: u64| #[trigger] frees(a.remove, b) implies !noted(a.add, b) by {
        assert(frees(s.remove, b));
    }
    drops_unmixed(a, r.freed, size);
}

/// What one change of a tree does to the lists and the counters.
proof fn step_balances(
    fs: FsV,
    generation: u64,
    owner: u64,
    base: Seq<BgV>,
    g: int,
    s: StateV,
    root: (u64, u8),
    op: OpV,
    k: int,
)
    requires
        fs.sb.node_size > 0,
        0 <= g < base.len(),
        step(fs, generation, owner, s, root, op) is Ok,
    ensures
        ({
            let t = step(fs, generation, owner, s, root, op)->Ok_0.0;
            let size = fs.sb.node_size;
            &&& s.remove.is_prefix_of(t.remove)
            &&& parted(s) ==> unmixed(t) && forall|b: u64|
                untouched(s, b) ==> !#[trigger] noted(t.add, b)
            &&& balanced(base, size, g, s, k) && bulk(
                base,
                places(t.remove),
                size as int,
                g,
            ) <= k ==> balanced(base, size, g, t, k)
        }),
{
    match op {
        OpV::Insert { key, data } => {
            insert_balances(fs, generation, owner, base, g, s, root, Item { key, data }, k);
        },
        OpV::Edit { key, edit } => {
            edit_balances(fs, generation, owner, base, g, s, root, key, edit, k);
        },
        OpV::Append { key, data } => match find_item(fs, s.pending, root.0, key) {
            Ok(None) => {
                insert_balances(fs, generation, owner, base, g, s, root, Item { key, data }, k);
            },
            Ok(Some(d)) => {
                let e = EditV::Put { data: d + data, missing: "dir item not found"@ };
                edit_balances(fs, generation, owner, base, g, s, root, key, e, k);
            },
            Err(_) => {},
        },
    }
}

proof fn absorbed_balances(
    base: Seq<BgV>,
    size: u32,
    g: int,
    s: StateV,
    r: CowV,
    owner: u64,
    k: int,
)
    requires
        size > 0,
        0 <= g < base.len(),
        granted(s.space, size, owner, r.allocated) == Some(r.space),
        absorbed(s, r, size, owner) is Ok,
    ensures
        ({
            let t = absorbed(s, r, size, owner)->Ok_0.0;
            &&& s.remove.is_prefix_of(t.remove)
            &&& parted(s) ==> unmixed(t) && forall|b: u64|
                untouched(s, b) ==> !#[trigger] noted(t.add, b)
            &&& balanced(base, size, g, s, k) && bulk(
                base,
                places(t.remove),
                size as int,
                g,
            ) <= k ==> balanced(base, size, g, t, k)
        }),
{
    let a = match s.ledger {
        None => s,
        Some(l) => StateV { ledger: claim_all(l, r.allocated, size), ..s },
    };
    recorded_balances(base, size, g, a, r, owner, k);
    if parted(s) {
        assert(parted(a)) by {
            assert forall|b: u64| #[trigger] frees(a.remove, b) implies untouched(a, b) by {
                assert(frees(s.remove, b));
                assert(untouched(s, b));
            }
        }
        recorded_unmixed(a, r, size, owner);
        let t = absorbed(s, r, size, owner)->Ok_0.0;
        assert forall|b: u64| untouched(s, b) implies !#[trigger] noted(t.add, b) by {
            assert(untouched(a, b));
        }
    }
}

proof fn insert_balances(
    fs: FsV,
    generation: u64,
    owner: u64,
    base: Seq<BgV>,
    g: int,
    s: StateV,
    root: (u64, u8),
    it: Item,
    k: int,
)
    requires
        fs.sb.node_size > 0,
        0 <= g < base.len(),
        insert_step(fs, generation, owner, s, root, it) is Ok,
    ensures
        ({
            let t = insert_step(fs, generation, owner, s, root, it)->Ok_0.0;
            let size = fs.sb.node_size;
            &&& s.remove.is_prefix_of(t.remove)
            &&& parted(s) ==> unmixed(t) && forall|b: u64|
                untouched(s, b) ==> !#[trigger] noted(t.add, b)
            &&& balanced(base, size, g, s, k) && bulk(
                base,
                places(t.remove),
                size as int,
                g,
            ) <= k ==> balanced(base, size, g, t, k)
        }),
{
    let c = Cow { fs, pending: s.pending, owner, generation };
    insert_grants(c, s.space, root.0, root.1, it);
    let r = tree_insert(c, s.space, root.0, root.1, it)->Ok_0;
    absorbed_balances(base, fs.sb.node_size, g, s, r, owner, k);
}

proof fn edit_balances(
    fs: FsV,
    generation: u64,
    owner: u64,
    base: Seq<BgV>,
    g: int,
    s: StateV,
    root: (u64, u8),
    key: Key,
    edit: EditV,
    k: int,
)
    requires
        fs.sb.node_size > 0,
        0 <= g < base.len(),
        edit_step(fs, generation, owner, s, root, key, edit) is Ok,
    ensures
        ({
            let t = edit_step(fs, generation, owner, s, root, key, edit)->Ok_0.0;
            let size = fs.sb.node_size;
            &&& s.remove.is_prefix_of(t.remove)
            &&& parted(s) ==> unmixed(t) && forall|b: u64|
                untouched(s, b) ==> !#[trigger] noted(t.add, b)
            &&& balanced(base, size, g, s, k) && bulk(
                base,
                places(t.remove),
                size as int,
                g,
            ) <= k ==> balanced(base, size, g, t, k)
        }),
{
    let c = Cow { fs, pending: s.pending, owner, generation };
    edit_grants(c, s.space, root.0, root.1, key, edit);
    let r = tree_edit(c, s.space, root.0, root.1, key, edit)->Ok_0;
    absorbed_balances(base, fs.sb.node_size, g, s, r, owner, k);
}

/// Changes of a tree keep the counters right, and the lists parted.
pub proof fn steps_balance(
    fs: FsV,
    generation: u64,
    owner: u64,
    base: Seq<BgV>,
    g: int,
    s: StateV,
    root: (u64, u8),
    ops: Seq<OpV>,
    k: int,
)
    requires
        fs.sb.node_size > 0,
        0 <= g < base.len(),
        orderly(fs, s, root),
        stays_low(fs, generation, owner, s, root, ops),
        steps(fs, generation, owner, s, root, ops) is Ok,
        parted(s),
    ensures
        ({
            let t = steps(fs, generation, owner, s, root, ops)->Ok_0.0;
            let size = fs.sb.node_size;
            &&& s.remove.is_prefix_of(t.remove)
            &&& parted(t)
            &&& stays_untouched(s, t)
            &&& balanced(base, size, g, s, k) && bulk(
                base,
                places(t.remove),
                size as int,
                g,
            ) <= k ==> balanced(base, size, g, t, k)
        }),
    decreases ops.len(),
{
    if ops.len() > 0 {
        let front = ops.drop_last();
        let size = fs.sb.node_size;
        steps_balance(fs, generation, owner, base, g, s, root, front, k);
        steps_on_map(fs, generation, owner, s, root, front);
        let (t, at) = steps(fs, generation, owner, s, root, front)->Ok_0;
        step_balances(fs, generation, owner, base, g, t, at, ops.last(), k);
        step_notes(fs, generation, owner, t, at, ops.last());
        step_on_map(fs, generation, owner, t, at, ops.last());
        let (u, r) = step(fs, generation, owner, t, at, ops.last())->Ok_0;
        assert forall|b: u64| untouched(t, b) implies #[trigger] untouched(u, b) by {
            assert(offered(u.space, b as int) <= offered(t.space, b as int));
            assert(!noted(u.add, b));
        }
        assert forall|b: u64| #[trigger] frees(u.remove, b) implies untouched(u, b) by {
            if frees(t.remove, b) {
                assert(untouched(t, b));
            }
        }
        bulk_of_prefix(base, t.remove, u.remove, size as int, g);
    }
}

/// Changes of a tree only add to the list of blocks to be taken off.
pub proof fn steps_extend(
    fs: FsV,
    generation: u64,
    owner: u64,
    s: StateV,
    root: (u64, u8),
    ops: Seq<OpV>,
)
    requires
        fs.sb.node_size > 0,
        steps(fs, generation, owner, s, root, ops) is Ok,
    ensures
        s.remove.is_prefix_of(steps(fs, generation, owner, s, root, ops)->Ok_0.0.remove),
    decreases ops.len(),
{
    if ops.len() > 0 {
        let front = ops.drop_last();
        steps_extend(fs, generation, owner, s, root, front);
        let (t, at) = steps(fs, generation, owner, s, root, front)->Ok_0;
        step_extends(fs, generation, owner, t, at, ops.last());
    }
}

pub proof fn step_extends(
    fs: FsV,
    generation: u64,
    owner: u64,
    s: StateV,
    root: (u64, u8),
    op: OpV,
)
    requires
        step(fs, generation, owner, s, root, op) is Ok,
    ensures
        s.remove.is_prefix_of(step(fs, generation, owner, s, root, op)->Ok_0.0.remove),
{
    let size = fs.sb.node_size;
    let c = Cow { fs, pending: s.pending, owner, generation };
    match op {
        OpV::Insert { key, data } => {
            let r = tree_insert(c, s.space, root.0, root.1, Item { key, data })->Ok_0;
            absorbed_extends(s, r, size, owner);
        },
        OpV::Edit { key, edit } => {
            let r = tree_edit(c, s.space, root.0, root.1, key, edit)->Ok_0;
            absorbed_extends(s, r, size, owner);
        },
        OpV::Append { key, data } => match find_item(fs, s.pending, root.0, key) {
            Ok(None) => {
                let r = tree_insert(c, s.space, root.0, root.1, Item { key, data })->Ok_0;
                absorbed_extends(s, r, size, owner);
            },
            Ok(Some(d)) => {
                let e = EditV::Put { data: d + data, missing: "dir item not found"@ };
                let r = tree_edit(c, s.space, root.0, root.1, key, e)->Ok_0;
                absorbed_extends(s, r, size, owner);
            },
            Err(_) => {},
        },
    }
}

proof fn absorbed_extends(s: StateV, r: CowV, size: u32, owner: u64)
    requires
        absorbed(s, r, size, owner) is Ok,
    ensures
        s.remove.is_prefix_of(absorbed(s, r, size, owner)->Ok_0.0.remove),
{
    let ledger = match s.ledger {
        None => None,
        Some(l) => claim_all(l, r.allocated, size),
    };
    let a = StateV {
        add: s.add + owned(r.allocated, owner),
        space: r.space,
        ledger,
        ..s
    };
    drops_extend(a, r.freed, size);
}

} // verus!
