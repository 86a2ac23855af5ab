//! Free and allocated space tile the block groups.

use vstd::prelude::*;

use std::ops::Range;

use crate::error::Fault;
use crate::fs::btrfs::volume::FsV;
use crate::fs::btrfs::write::exclude::{in_ranges, sb_exclusions};
use crate::fs::btrfs::write::extent_tree::{AllocV, BlockGroupItem};
use crate::fs::btrfs::write::handout::{
    covering, covering_concat, covering_gap, covering_one, offered, tidy,
};
use crate::fs::btrfs::write::load::{extent_tree_of, space_on};
use crate::fs::btrfs::write::ranges::{cut, cut_all, gap, range_sum, FreeRange};
use crate::fs::btrfs::write::space::{
    exclude, exclude_bg, group_space, scan, space_of, BgV, Scan,
};

verus! {

/// How many of `extents` hold address `a`.
pub open spec fn holding(extents: Seq<AllocV>, a: int) -> nat
    decreases extents.len(),
{
    if extents.len() == 0 {
        0
    } else {
        holding(extents.drop_last(), a) + if extents.last().bytenr <= a < extents.last().bytenr
            + extents.last().length {
            1nat
        } else {
            0nat
        }
    }
}

/// Whether address `a` lies in a block group.
pub open spec fn in_group(g: BlockGroupItem, a: int) -> bool {
    g.start <= a < g.start + g.length
}

/// What a scan counts beyond the way it has come.
pub open spec fn slack(bg: BlockGroupItem, p: Scan) -> int {
    p.total + range_sum(p.free) - (p.cursor - bg.start)
}

proof fn range_sum_gap(free: Seq<FreeRange>, x: u64, y: u64)
    ensures
        range_sum(free + gap(x, y)) == range_sum(free) + if x < y {
            y - x
        } else {
            0
        },
{
    if x < y {
        assert((free + gap(x, y)).drop_last() =~= free);
    } else {
        assert(free + gap(x, y) =~= free);
    }
}

proof fn slack_grows(bg: BlockGroupItem, extents: Seq<AllocV>)
    requires
        extents.len() > 0,
    ensures
        slack(bg, scan(bg, extents)) >= slack(bg, scan(bg, extents.drop_last())),
        ({
            let p = scan(bg, extents.drop_last());
            let x = extents.last();
            slack(bg, scan(bg, extents)) == slack(bg, p) && bg.start <= x.bytenr < bg.start
                + bg.length ==> x.bytenr >= p.cursor && x.bytenr + x.length <= u64::MAX
        }),
{
    let p = scan(bg, extents.drop_last());
    let x = extents.last();
    range_sum_gap(p.free, p.cursor, x.bytenr);
}

proof fn slack_is_not_negative(bg: BlockGroupItem, extents: Seq<AllocV>)
    ensures
        slack(bg, scan(bg, extents)) >= 0,
        scan(bg, extents).cursor >= bg.start,
    decreases extents.len(),
{
    if extents.len() > 0 {
        slack_is_not_negative(bg, extents.drop_last());
        slack_grows(bg, extents);
    }
}

proof fn scan_tiles(bg: BlockGroupItem, extents: Seq<AllocV>, a: int)
    requires
        slack(bg, scan(bg, extents)) == 0,
    ensures
        ({
            let p = scan(bg, extents);
            covering(p.free, a) + holding(p.inside, a) == if bg.start <= a < p.cursor {
                1nat
            } else {
                0nat
            }
        }),
    decreases extents.len(),
{
    if extents.len() > 0 {
        let front = extents.drop_last();
        slack_is_not_negative(bg, front);
        slack_grows(bg, extents);
        scan_tiles(bg, front, a);
        let p = scan(bg, front);
        let x = extents.last();
        if bg.start <= x.bytenr < bg.start + bg.length {
            covering_concat(p.free, gap(p.cursor, x.bytenr), a);
            covering_gap(p.cursor, x.bytenr, a);
            assert(p.inside.push(x).drop_last() =~= p.inside);
        }
    }
}

/// The free ranges and the extents of a group tile it: every address of the
/// group lies in just one of them, and no other address in any.
pub proof fn group_tiles(bg: BlockGroupItem, extents: Seq<AllocV>, a: int)
    requires
        group_space(bg, extents) is Ok,
    ensures
        ({
            let b = group_space(bg, extents)->Ok_0;
            covering(b.free, a) + holding(b.extents, a) == if in_group(bg, a) {
                1nat
            } else {
                0nat
            }
        }),
{
    let p = scan(bg, extents);
    let end = (bg.start + bg.length) as u64;
    slack_is_not_negative(bg, extents);
    range_sum_gap(p.free, p.cursor, end);
    scan_tiles(bg, extents, a);
    covering_concat(p.free, gap(p.cursor, end), a);
    covering_gap(p.cursor, end, a);
}

/// How many of the extents that the groups hold, hold address `a`.
pub open spec fn recorded(m: Seq<BgV>, a: int) -> nat
    decreases m.len(),
{
    if m.len() == 0 {
        0
    } else {
        recorded(m.drop_last(), a) + holding(m.last().extents, a)
    }
}

/// How many groups address `a` lies in.
pub open spec fn groups_at(groups: Seq<BlockGroupItem>, a: int) -> nat
    decreases groups.len(),
{
    if groups.len() == 0 {
        0
    } else {
        groups_at(groups.drop_last(), a) + if in_group(groups.last(), a) {
            1nat
        } else {
            0nat
        }
    }
}

/// The free ranges of a group keep within it.
pub open spec fn keeps_within(b: BgV, a: int) -> bool {
    &&& b.group.start + b.group.length <= u64::MAX
    &&& covering(b.free, a) > 0 ==> in_group(b.group, a)
}

/// Free and allocated space tile all groups.
pub proof fn space_tiles(groups: Seq<BlockGroupItem>, extents: Seq<AllocV>, a: int)
    requires
        space_of(groups, extents) is Ok,
    ensures
        ({
            let m = space_of(groups, extents)->Ok_0;
            &&& offered(m, a) + recorded(m, a) == groups_at(groups, a)
            &&& m.len() == groups.len()
            &&& forall|i: int| 0 <= i < m.len() ==> keeps_within(#[trigger] m[i], a)
            &&& forall|i: int|
                0 <= i < m.len() ==> group_space(groups[i], extents) == Ok::<BgV, Fault>(#[trigger] m[i])
        }),
    decreases groups.len(),
{
    if groups.len() > 0 {
        let front = groups.drop_last();
        space_tiles(front, extents, a);
        group_tiles(groups.last(), extents, a);
        let m = space_of(front, extents)->Ok_0;
        let b = group_space(groups.last(), extents)->Ok_0;
        let n = m.push(b);
        assert(n.drop_last() =~= m);
        assert forall|i: int| 0 <= i < n.len() implies keeps_within(#[trigger] n[i], a)
            && group_space(groups[i], extents) == Ok::<BgV, Fault>(n[i]) by {
            if i < m.len() {
                assert(n[i] == m[i]);
                assert(front[i] == groups[i]);
            }
        }
    }
}

proof fn cut_covers(free: Seq<FreeRange>, s: u64, e: u64, a: int)
    requires
        s <= e,
    ensures
        covering(cut_all(free, s, e), a) == if s <= a < e {
            0nat
        } else {
            covering(free, a)
        },
    decreases free.len(),
{
    if free.len() > 0 {
        let front = free.drop_last();
        let r = free.last();
        cut_covers(front, s, e, a);
        covering_concat(cut_all(front, s, e), cut(r, s, e), a);
        covering_one(r, a);
        if !(e <= r.start || s >= r.spec_end()) {
            covering_concat(gap(r.start, s), gap(e, r.spec_end()), a);
            covering_gap(r.start, s, a);
            covering_gap(e, r.spec_end(), a);
        }
    }
}

proof fn excluded_group_covers(b: BgV, s: u64, e: u64, a: int)
    requires
        keeps_within(b, a),
    ensures
        covering(exclude_bg(b, s, e).free, a) == if s <= a < e {
            0nat
        } else {
            covering(b.free, a)
        },
        keeps_within(exclude_bg(b, s, e), a),
{
    let lo = if s > b.group.start {
        s
    } else {
        b.group.start
    };
    let hi = if e < b.end() {
        e
    } else {
        b.end()
    };
    if !(s >= e || lo >= hi) {
        cut_covers(b.free, lo, hi, a);
    }
}

proof fn excluded_groups_offer(m: Seq<BgV>, s: u64, e: u64, a: int)
    requires
        forall|i: int| 0 <= i < m.len() ==> keeps_within(#[trigger] m[i], a),
    ensures
        ({
            let n = m.map_values(|b: BgV| exclude_bg(b, s, e));
            &&& offered(n, a) == if s <= a < e {
                0nat
            } else {
                offered(m, a)
            }
            &&& forall|i: int| 0 <= i < n.len() ==> keeps_within(#[trigger] n[i], a)
        }),
    decreases m.len(),
{
    let f = |b: BgV| exclude_bg(b, s, e);
    let n = m.map_values(f);
    if m.len() > 0 {
        let front = m.drop_last();
        assert forall|i: int| 0 <= i < front.len() implies keeps_within(#[trigger] front[i], a) by {
            assert(front[i] == m[i]);
        }
        excluded_groups_offer(front, s, e, a);
        assert(n.drop_last() =~= front.map_values(f));
        assert(keeps_within(m[m.len() - 1], a));
        excluded_group_covers(m.last(), s, e, a);
        assert forall|i: int| 0 <= i < n.len() implies keeps_within(#[trigger] n[i], a) by {
            if i < front.len() {
                assert(n[i] == front.map_values(f)[i]);
            }
        }
    }
}

proof fn excluded_groups_offer_less(m: Seq<BgV>, s: u64, e: u64, a: int)
    ensures
        offered(m.map_values(|b: BgV| exclude_bg(b, s, e)), a) <= offered(m, a),
    decreases m.len(),
{
    let f = |b: BgV| exclude_bg(b, s, e);
    let n = m.map_values(f);
    if m.len() > 0 {
        excluded_groups_offer_less(m.drop_last(), s, e, a);
        assert(n.drop_last() =~= m.drop_last().map_values(f));
        let b = m.last();
        let lo = if s > b.group.start {
            s
        } else {
            b.group.start
        };
        let hi = if e < b.end() {
            e
        } else {
            b.end()
        };
        if !(s >= e || lo >= hi) {
            cut_covers(b.free, lo, hi, a);
        }
    }
}

/// Excluding ranges makes nothing free.
pub proof fn exclusion_offers_less(m: Seq<BgV>, ranges: Seq<Range<u64>>, a: int)
    ensures
        offered(exclude(m, ranges), a) <= offered(m, a),
    decreases ranges.len(),
{
    if ranges.len() > 0 {
        exclusion_offers_less(m, ranges.drop_last(), a);
        excluded_groups_offer_less(
            exclude(m, ranges.drop_last()),
            ranges.last().start,
            ranges.last().end,
            a,
        );
    }
}

/// What is excluded is not offered, and nothing else changes.
pub proof fn excluded_is_not_offered(m: Seq<BgV>, ranges: Seq<Range<u64>>, a: int)
    requires
        forall|i: int| 0 <= i < m.len() ==> keeps_within(#[trigger] m[i], a),
    ensures
        offered(exclude(m, ranges), a) == if in_ranges(ranges, a) {
            0nat
        } else {
            offered(m, a)
        },
        forall|i: int|
            0 <= i < exclude(m, ranges).len() ==> keeps_within(
                #[trigger] exclude(m, ranges)[i],
                a,
            ),
    decreases ranges.len(),
{
    if ranges.len() > 0 {
        let front = ranges.drop_last();
        let r = ranges.last();
        excluded_is_not_offered(m, front, a);
        excluded_groups_offer(exclude(m, front), r.start, r.end, a);
        if in_ranges(front, a) {
            let i = choose|i: int|
                0 <= i < front.len() && (#[trigger] front[i]).start <= a < front[i].end;
            assert(ranges[i].start <= a < ranges[i].end);
        }
        if r.start <= a < r.end {
            assert(ranges[ranges.len() - 1].start <= a < ranges[ranges.len() - 1].end);
        }
        if in_ranges(ranges, a) {
            let i = choose|i: int|
                0 <= i < ranges.len() && (#[trigger] ranges[i]).start <= a < ranges[i].end;
            if i < front.len() {
                assert(front[i].start <= a < front[i].end);
            }
        }
    }
}

/// The free space that a volume's allocator starts from is just what its extent
/// tree leaves of its block groups, without the superblock copies: an address
/// in a copy is not free, and any other is free as often as it lies in a group
/// and in none of the extents recorded there.
pub proof fn free_space_means(fs: FsV, a: int)
    requires
        space_on(fs) is Ok,
    ensures
        ({
            let t = extent_tree_of(fs)->Ok_0;
            let all = space_of(t.block_groups, t.extents)->Ok_0;
            let m = space_on(fs)->Ok_0;
            if in_ranges(sb_exclusions(fs.chunks), a) {
                offered(m, a) == 0
            } else {
                offered(m, a) + recorded(all, a) == groups_at(t.block_groups, a)
            }
        }),
{
    let t = extent_tree_of(fs)->Ok_0;
    let all = space_of(t.block_groups, t.extents)->Ok_0;
    space_tiles(t.block_groups, t.extents, a);
    excluded_is_not_offered(all, sb_exclusions(fs.chunks), a);
}

/// Where no two block groups overlap, no address is free twice.
pub proof fn free_space_is_tidy(fs: FsV)
    requires
        space_on(fs) is Ok,
        forall|a: int| #[trigger] groups_at(extent_tree_of(fs)->Ok_0.block_groups, a) <= 1,
    ensures
        tidy(space_on(fs)->Ok_0),
{
    assert forall|a: int| #[trigger] offered(space_on(fs)->Ok_0, a) <= 1 by {
        free_space_means(fs, a);
        assert(groups_at(extent_tree_of(fs)->Ok_0.block_groups, a) <= 1);
    }
}

proof fn scan_has(bg: BlockGroupItem, extents: Seq<AllocV>, i: int, a: int)
    requires
        0 <= i < extents.len(),
        in_group(bg, extents[i].bytenr as int),
        extents[i].bytenr <= a < extents[i].bytenr + extents[i].length,
    ensures
        holding(scan(bg, extents).inside, a) > 0,
    decreases extents.len(),
{
    let front = extents.drop_last();
    let p = scan(bg, front);
    let x = extents.last();
    if i < front.len() {
        scan_has(bg, front, i, a);
    }
    if bg.start <= x.bytenr < bg.start + bg.length {
        assert(p.inside.push(x).drop_last() =~= p.inside);
    }
}

proof fn recorded_has(m: Seq<BgV>, j: int, a: int)
    requires
        0 <= j < m.len(),
        holding(m[j].extents, a) > 0,
    ensures
        recorded(m, a) > 0,
    decreases m.len(),
{
    if j < m.len() - 1 {
        assert(m.drop_last()[j] == m[j]);
        recorded_has(m.drop_last(), j, a);
    }
}

/// Where no two block groups overlap, nothing of an extent that is recorded in
/// the extent tree and begins in a block group is free.
pub proof fn recorded_is_not_free(fs: FsV, i: int, j: int, a: int)
    requires
        space_on(fs) is Ok,
        groups_at(extent_tree_of(fs)->Ok_0.block_groups, a) <= 1,
        ({
            let t = extent_tree_of(fs)->Ok_0;
            &&& 0 <= i < t.extents.len()
            &&& 0 <= j < t.block_groups.len()
            &&& in_group(t.block_groups[j], t.extents[i].bytenr as int)
            &&& t.extents[i].bytenr <= a < t.extents[i].bytenr + t.extents[i].length
        }),
    ensures
        offered(space_on(fs)->Ok_0, a) == 0,
{
    let t = extent_tree_of(fs)->Ok_0;
    let all = space_of(t.block_groups, t.extents)->Ok_0;
    free_space_means(fs, a);
    space_tiles(t.block_groups, t.extents, a);
    scan_has(t.block_groups[j], t.extents, i, a);
    assert(group_space(t.block_groups[j], t.extents) == Ok::<BgV, Fault>(all[j]));
    recorded_has(all, j, a);
}

} // verus!
