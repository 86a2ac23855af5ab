//! Free-space tracking and allocation derived from the extent tree.

use std::ops::Range;

use vstd::prelude::*;

use crate::bytes::{append_u32, enc32};
use crate::error::{Fault, LuksError, Outcome, Result};
use crate::fs::btrfs::chunk::{
    BLOCK_GROUP_DATA, BLOCK_GROUP_METADATA, BLOCK_GROUP_SYSTEM,
};
use crate::fs::btrfs::tree::{
    items_of, Item, Key, LeafItem, CHUNK_TREE_OBJECTID, FREE_SPACE_EXTENT_KEY, FREE_SPACE_INFO_KEY,
};
use crate::fs::btrfs::write::extent_tree::{
    allocs_of, cap64, AllocV, AllocatedExtent, BlockGroupItem, ExtentTree,
};
use crate::fs::btrfs::write::ranges::{
    adjoin_all, adjoin_ranges, align_up, align_up_bounds, align_up_to, carve, carve_out,
    common_all, cut_all, cut_ranges, gap, normal, normalize, push_gap, range_sum,
    range_sum_bound, sum_exact, sum_ranges,
};
use crate::seqs::{append_vec, copy_vec, first_idx, first_idx_is, first_idx_props};
use crate::sort::{sort_ranked, stable_sort};

pub use crate::fs::btrfs::write::ranges::FreeRange;

verus! {

/// The free-space view of one block group.
#[derive(Debug, PartialEq, Eq)]
pub struct BlockGroupFreeSpace {
    pub block_group: BlockGroupItem,
    pub allocated_extents: Vec<AllocatedExtent>,
    pub free_ranges: Vec<FreeRange>,
    pub pinned_freed: Vec<FreeRange>,
    pub excluded_ranges: Vec<FreeRange>,
    pub total_allocated_bytes: u64,
    pub total_free_bytes: u64,
}

/// The mathematical view of a [`BlockGroupFreeSpace`].
#[verifier::ext_equal]
pub struct BgV {
    pub group: BlockGroupItem,
    pub extents: Seq<AllocV>,
    pub free: Seq<FreeRange>,
    pub pinned: Seq<FreeRange>,
    pub excluded: Seq<FreeRange>,
    pub total_allocated: u64,
    pub total_free: u64,
}

impl View for BlockGroupFreeSpace {
    type V = BgV;

    open spec fn view(&self) -> BgV {
        BgV {
            group: self.block_group,
            extents: allocs_of(self.allocated_extents@),
            free: self.free_ranges@,
            pinned: self.pinned_freed@,
            excluded: self.excluded_ranges@,
            total_allocated: self.total_allocated_bytes,
            total_free: self.total_free_bytes,
        }
    }
}

impl BgV {
    /// The first address behind the group.
    pub open spec fn end(self) -> u64 {
        cap64(self.group.start + self.group.length)
    }

    /// Whether `[a, b)` lies in the group.
    pub open spec fn contains(self, a: u64, b: u64) -> bool {
        self.group.start <= a && b <= self.end()
    }
}

/// The free space of a filesystem over all block groups.
#[derive(Debug, PartialEq, Eq)]
pub struct FreeSpaceMap {
    pub block_groups: Vec<BlockGroupFreeSpace>,
}

/// The views of a sequence of block groups.
pub open spec fn bgs_of(s: Seq<BlockGroupFreeSpace>) -> Seq<BgV> {
    s.map_values(|b: BlockGroupFreeSpace| b@)
}

impl View for FreeSpaceMap {
    type V = Seq<BgV>;

    open spec fn view(&self) -> Seq<BgV> {
        bgs_of(self.block_groups@)
    }
}

/// Whether a block group with these flags can hold data extents.
///
/// A metadata-only group cannot; a mixed one can.
pub fn bg_holds_data(flags: u64) -> (r: bool)
    ensures
        r == (flags & BLOCK_GROUP_DATA != 0),
{
    flags & BLOCK_GROUP_DATA != 0
}

/// The block group flag that a metadata block of tree `owner` needs.
///
/// Chunk tree blocks stay in system groups so that they remain addressable
/// when the filesystem is mounted.
pub open spec fn metadata_flag(owner: u64) -> u64 {
    if owner == CHUNK_TREE_OBJECTID {
        BLOCK_GROUP_SYSTEM
    } else {
        BLOCK_GROUP_METADATA
    }
}

/// Where `needed` bytes aligned to `a` fit into `r`.
pub open spec fn fit(r: FreeRange, needed: u64, a: u64) -> Option<u64> {
    match align_up(r.start, a) {
        Some(x) => if x + needed <= r.spec_end() {
            Some(x)
        } else {
            None
        },
        None => None,
    }
}

fn fit_at(r: &FreeRange, needed: u64, a: u64) -> (x: Option<u64>)
    ensures
        x == fit(*r, needed, a),
        x matches Some(v) ==> r.start <= v && v + needed <= r.spec_end(),
{
    proof {
        align_up_bounds(r.start, a);
    }
    match align_up_to(r.start, a) {
        Some(x) => {
            let end: u64 = r.end();
            if x <= end && needed <= end - x {
                Some(x)
            } else {
                None
            }
        },
        None => None,
    }
}

/// The first range into which `needed` bytes aligned to `a` fit.
pub open spec fn fit_idx(free: Seq<FreeRange>, needed: u64, a: u64) -> int {
    first_idx(free, |r: FreeRange| fit(r, needed, a) is Some)
}

fn find_fit(free: &Vec<FreeRange>, needed: u64, a: u64) -> (i: usize)
    ensures
        i == fit_idx(free@, needed, a),
        i <= free@.len(),
{
    let ghost f = |r: FreeRange| fit(r, needed, a) is Some;
    let n: usize = free.len();
    let mut i: usize = 0;
    while i < n && fit_at(&free[i], needed, a).is_none()
        invariant
            i <= n,
            n == free@.len(),
            f == (|r: FreeRange| fit(r, needed, a) is Some),
            forall|j: int| 0 <= j < i ==> !f(#[trigger] free@[j]),
        decreases n - i,
    {
        i += 1;
    }
    proof {
        first_idx_is(free@, f, i as int);
    }
    i
}

/// Whether a group with any of the bits of `flag` set has room.
pub open spec fn has_room(b: BgV, flag: u64, needed: u64, a: u64) -> bool {
    b.group.flags & flag != 0 && fit_idx(b.free, needed, a) < b.free.len()
}

/// The first group with room.
pub open spec fn room_idx(m: Seq<BgV>, flag: u64, needed: u64, a: u64) -> int {
    first_idx(m, |b: BgV| has_room(b, flag, needed, a))
}

/// A group once `[x, y)` was taken out of its free range `i`.
pub open spec fn carve_bg(b: BgV, i: int, x: u64, y: u64) -> BgV {
    BgV {
        group: BlockGroupItem { used: cap64(b.group.used + (y - x)), ..b.group },
        free: carve(b.free, i, x, y),
        total_allocated: cap64(b.total_allocated + (y - x)),
        total_free: b.total_free.saturating_sub((y - x) as u64),
        ..b
    }
}

/// First fit: the address handed out and the map behind it, or `None` when no
/// group has room.
pub open spec fn first_fit(m: Seq<BgV>, flag: u64, needed: u64, a: u64) -> Option<(u64, Seq<BgV>)> {
    let g = room_idx(m, flag, needed, a);
    if g < m.len() {
        let i = fit_idx(m[g].free, needed, a);
        let x = fit(m[g].free[i], needed, a)->Some_0;
        Some((x, m.update(g, carve_bg(m[g], i, x, (x + needed) as u64))))
    } else {
        None
    }
}

/// First fit for a metadata block of the tree `owner`.
#[verifier::opaque]
pub open spec fn alloc_meta(m: Seq<BgV>, size: u32, owner: u64) -> Option<(u64, Seq<BgV>)> {
    first_fit(m, metadata_flag(owner), size as u64, size as u64)
}

/// How many bytes a data run out of `r` would have.
pub open spec fn run_len(r: FreeRange, max: int, a: u64) -> int {
    match align_up(r.start, a) {
        Some(x) => if x < r.spec_end() {
            let usable = ((r.spec_end() - x) / a as int) * a;
            if usable < max {
                usable
            } else {
                max
            }
        } else {
            0
        },
        None => 0,
    }
}

/// The first longest run over the leading ranges: its position and length.
pub open spec fn longest_run(free: Seq<FreeRange>, max: int, a: u64) -> (int, int)
    decreases free.len(),
{
    if free.len() == 0 {
        (0, 0)
    } else {
        let best = longest_run(free.drop_last(), max, a);
        let len = run_len(free.last(), max, a);
        if len > best.1 {
            (free.len() - 1, len)
        } else {
            best
        }
    }
}

/// The longest run that a group offers for data.
pub open spec fn group_run(b: BgV, max: int, a: u64) -> (int, int) {
    if b.group.flags & BLOCK_GROUP_DATA != 0 {
        longest_run(b.free, max, a)
    } else {
        (0, 0)
    }
}

/// The first longest run over the leading groups: group, range and length.
pub open spec fn best_run(m: Seq<BgV>, max: int, a: u64) -> (int, int, int)
    decreases m.len(),
{
    if m.len() == 0 {
        (0, 0, 0)
    } else {
        let best = best_run(m.drop_last(), max, a);
        let here = group_run(m.last(), max, a);
        if here.1 > best.2 {
            (m.len() - 1, here.0, here.1)
        } else {
            best
        }
    }
}

/// Facts about the best run of a group.
pub proof fn longest_run_props(free: Seq<FreeRange>, max: int, a: u64)
    requires
        max >= 0,
        a > 0,
    ensures
        0 <= longest_run(free, max, a).1 <= max,
        longest_run(free, max, a).1 > 0 ==> {
            &&& 0 <= longest_run(free, max, a).0 < free.len()
            &&& run_len(free[longest_run(free, max, a).0], max, a) == longest_run(free, max, a).1
        },
        forall|j: int|
            0 <= j < free.len() ==> run_len(#[trigger] free[j], max, a) <= longest_run(
                free,
                max,
                a,
            ).1,
    decreases free.len(),
{
    if free.len() > 0 {
        longest_run_props(free.drop_last(), max, a);
        let best = longest_run(free.drop_last(), max, a);
        assert forall|j: int| 0 <= j < free.len() implies run_len(#[trigger] free[j], max, a)
            <= longest_run(free, max, a).1 by {
            if j < free.len() - 1 {
                assert(free.drop_last()[j] == free[j]);
            }
        }
        if best.1 > 0 {
            assert(free.drop_last()[best.0] == free[best.0]);
        }
    }
}

/// Facts about the best run of a map.
pub proof fn best_run_props(m: Seq<BgV>, max: int, a: u64)
    requires
        max >= 0,
        a > 0,
    ensures
        0 <= best_run(m, max, a).2 <= max,
        best_run(m, max, a).2 > 0 ==> {
            let (g, i, n) = best_run(m, max, a);
            &&& 0 <= g < m.len()
            &&& 0 <= i < m[g].free.len()
            &&& m[g].group.flags & BLOCK_GROUP_DATA != 0
            &&& run_len(m[g].free[i], max, a) == n
        },
        forall|g: int, i: int|
            0 <= g < m.len() && 0 <= i < m[g].free.len() && m[g].group.flags & BLOCK_GROUP_DATA != 0
                ==> run_len(#[trigger] m[g].free[i], max, a) <= best_run(m, max, a).2,
    decreases m.len(),
{
    if m.len() > 0 {
        best_run_props(m.drop_last(), max, a);
        longest_run_props(m.last().free, max, a);
        let best = best_run(m.drop_last(), max, a);
        assert forall|g: int, i: int|
            0 <= g < m.len() && 0 <= i < m[g].free.len() && m[g].group.flags & BLOCK_GROUP_DATA
                != 0 implies run_len(#[trigger] m[g].free[i], max, a) <= best_run(m, max, a).2 by {
            if g < m.len() - 1 {
                assert(m.drop_last()[g] == m[g]);
                assert(m.drop_last()[g].free[i] == m[g].free[i]);
            }
        }
        if best.2 > 0 {
            assert(m.drop_last()[best.0] == m[best.0]);
        }
    }
}

/// What allocating a data run gives: address, length and the map behind it.
#[verifier::opaque]
pub open spec fn alloc_run(m: Seq<BgV>, max_size: u64, sector: u32) -> Option<
    (u64, u64, Seq<BgV>),
> {
    let max = (max_size / sector as u64) * sector as u64;
    let (g, i, n) = best_run(m, max as int, sector as u64);
    if sector == 0 || max == 0 || n == 0 {
        None
    } else {
        let x = align_up(m[g].free[i].start, sector as u64)->Some_0;
        Some((x, n as u64, m.update(g, carve_bg(m[g], i, x, (x + n) as u64))))
    }
}

/// What marking `[a, a + length)` as allocated gives.
pub open spec fn mark(m: Seq<BgV>, a: u64, length: u64) -> Outcome<Seq<BgV>> {
    let b = (a + length) as u64;
    let g = first_idx(m, |x: BgV| x.contains(a, b));
    if length == 0 {
        Ok(m)
    } else if a + length > u64::MAX || g == m.len() {
        Err(Fault::OutOfBounds)
    } else {
        let i = first_idx(m[g].free, |r: FreeRange| r.start <= a && b <= r.spec_end());
        if i == m[g].free.len() {
            Err(
                Fault::CorruptFs(
                    "range to mark allocated was not present in block group free ranges"@,
                ),
            )
        } else {
            Ok(m.update(g, carve_bg(m[g], i, a, b)))
        }
    }
}

/// Pinned ranges with `[a, a + length)` among them.
pub open spec fn pin(pinned: Seq<FreeRange>, a: u64, length: u64) -> Seq<FreeRange> {
    adjoin_all(
        pinned.insert(
            first_idx(pinned, |r: FreeRange| r.start >= a),
            FreeRange { start: a, length },
        ),
    )
}

/// A group once `[a, a + length)` was freed.
pub open spec fn pin_bg(b: BgV, a: u64, length: u64) -> BgV {
    BgV {
        group: BlockGroupItem { used: b.group.used.saturating_sub(length), ..b.group },
        pinned: pin(b.pinned, a, length),
        ..b
    }
}

/// What freeing a data extent gives.
#[verifier::opaque]
pub open spec fn free_extent(m: Seq<BgV>, a: u64, size: u64) -> Outcome<Seq<BgV>> {
    let b = (a + size) as u64;
    let g = first_idx(m, |x: BgV| x.contains(a, b));
    if size == 0 {
        Ok(m)
    } else if a + size > u64::MAX {
        Err(Fault::CorruptFs("free_data range overflows u64"@))
    } else if g == m.len() {
        Err(Fault::CorruptFs("free_data range is not contained in any block group"@))
    } else if m[g].group.used < size {
        Err(
            Fault::CorruptFs(
                "free_data would free more bytes than the block group has allocated"@,
            ),
        )
    } else if exists|i: int|
        0 <= i < m[g].pinned.len() && a < (#[trigger] m[g].pinned[i]).spec_end()
            && m[g].pinned[i].start < b {
        Err(
            Fault::CorruptFs(
                "free_data range overlaps a range already pending release in this transaction"@,
            ),
        )
    } else {
        Ok(m.update(g, pin_bg(m[g], a, size)))
    }
}

/// What freeing a metadata block gives.
#[verifier::opaque]
pub open spec fn free_block(m: Seq<BgV>, a: u64, size: u32) -> Seq<BgV> {
    let g = first_idx(m, |x: BgV| a + size <= u64::MAX && x.contains(a, (a + size) as u64));
    if g < m.len() {
        m.update(g, pin_bg(m[g], a, size as u64))
    } else {
        m
    }
}

/// What is left of `ranges` outside all of `holes`.
pub open spec fn cut_holes(ranges: Seq<FreeRange>, holes: Seq<FreeRange>) -> Seq<FreeRange>
    decreases holes.len(),
{
    if holes.len() == 0 {
        ranges
    } else {
        cut_all(
            cut_holes(ranges, holes.drop_last()),
            holes.last().start,
            holes.last().spec_end(),
        )
    }
}

/// A group once its pinned ranges are free again.
pub open spec fn unpin_bg(b: BgV) -> BgV {
    if b.pinned.len() == 0 {
        b
    } else {
        let free = cut_holes(normal(b.free + b.pinned), b.excluded);
        BgV { free, pinned: Seq::empty(), total_free: cap64(range_sum(free)), ..b }
    }
}

/// A map once all pinned ranges are free again.
pub open spec fn unpin(m: Seq<BgV>) -> Seq<BgV> {
    m.map_values(|b: BgV| unpin_bg(b))
}

/// A group once `[s, e)` must not be handed out.
pub open spec fn exclude_bg(b: BgV, s: u64, e: u64) -> BgV {
    let lo = if s > b.group.start {
        s
    } else {
        b.group.start
    };
    let hi = if e < b.end() {
        e
    } else {
        b.end()
    };
    if s >= e || lo >= hi {
        b
    } else {
        let free = cut_all(b.free, lo, hi);
        BgV {
            free,
            excluded: normal(b.excluded + common_all(b.free, lo, hi)),
            total_free: cap64(range_sum(free)),
            ..b
        }
    }
}

/// A map once none of `ranges` may be handed out.
pub open spec fn exclude(m: Seq<BgV>, ranges: Seq<Range<u64>>) -> Seq<BgV>
    decreases ranges.len(),
{
    if ranges.len() == 0 {
        m
    } else {
        exclude(m, ranges.drop_last()).map_values(
            |b: BgV| exclude_bg(b, ranges.last().start, ranges.last().end),
        )
    }
}

/// The scan of a group's extents, in address order.
pub struct Scan {
    /// The extents in the group.
    pub inside: Seq<AllocV>,
    /// The gaps between them.
    pub free: Seq<FreeRange>,
    /// Their bytes.
    pub total: int,
    /// The address behind the last of them.
    pub cursor: u64,
}

/// Scan the extents that start in `bg`.
pub open spec fn scan(bg: BlockGroupItem, extents: Seq<AllocV>) -> Scan
    decreases extents.len(),
{
    if extents.len() == 0 {
        Scan { inside: Seq::empty(), free: Seq::empty(), total: 0, cursor: bg.start }
    } else {
        let p = scan(bg, extents.drop_last());
        let x = extents.last();
        if bg.start <= x.bytenr < bg.start + bg.length {
            Scan {
                inside: p.inside.push(x),
                free: p.free + gap(p.cursor, x.bytenr),
                total: p.total + x.length,
                cursor: cap64(x.bytenr + x.length),
            }
        } else {
            p
        }
    }
}

/// The free space of `bg` between `extents`.
pub open spec fn group_space(bg: BlockGroupItem, extents: Seq<AllocV>) -> Outcome<BgV> {
    let p = scan(bg, extents);
    let free = p.free + gap(p.cursor, (bg.start + bg.length) as u64);
    if bg.start + bg.length > u64::MAX {
        Err(Fault::CorruptFs("block group range overflow"@))
    } else if p.total != bg.used {
        Err(
            Fault::CorruptFs("extent tree allocations do not match block group used counter"@),
        )
    } else if p.total + range_sum(free) != bg.length {
        Err(
            Fault::CorruptFs(
                "sum of allocated and free space does not match block group length"@,
            ),
        )
    } else {
        Ok(
            BgV {
                group: bg,
                extents: p.inside,
                free,
                pinned: Seq::empty(),
                excluded: Seq::empty(),
                total_allocated: p.total as u64,
                total_free: range_sum(free) as u64,
            },
        )
    }
}

/// The free space of all groups between `extents`.
pub open spec fn space_of(groups: Seq<BlockGroupItem>, extents: Seq<AllocV>) -> Outcome<Seq<BgV>>
    decreases groups.len(),
{
    if groups.len() == 0 {
        Ok(Seq::empty())
    } else {
        match space_of(groups.drop_last(), extents) {
            Err(e) => Err(e),
            Ok(m) => match group_space(groups.last(), extents) {
                Err(e) => Err(e),
                Ok(b) => Ok(m.push(b)),
            },
        }
    }
}

/// The ranges that the free-space tree shows for a group.
pub open spec fn shown(b: BgV) -> Seq<FreeRange> {
    normal(b.free + b.pinned + b.excluded)
}

/// The free-space tree items of one group.
pub open spec fn group_items(b: BgV) -> Seq<Item> {
    seq![
        Item {
            key: Key {
                objectid: b.group.start,
                item_type: FREE_SPACE_INFO_KEY,
                offset: b.group.length,
            },
            data: enc32(shown(b).len() as u32) + enc32(0),
        },
    ] + Seq::new(
        shown(b).len(),
        |i: int|
            Item {
                key: Key {
                    objectid: shown(b)[i].start,
                    item_type: FREE_SPACE_EXTENT_KEY,
                    offset: shown(b)[i].length,
                },
                data: Seq::empty(),
            },
    )
}

/// The free-space tree items of a map.
pub open spec fn space_items(m: Seq<BgV>) -> Seq<Item>
    decreases m.len(),
{
    if m.len() == 0 {
        Seq::empty()
    } else {
        space_items(m.drop_last()) + group_items(m.last())
    }
}

/// The free ranges of all groups.
pub open spec fn flat_free(m: Seq<BgV>) -> Seq<FreeRange>
    decreases m.len(),
{
    if m.len() == 0 {
        Seq::empty()
    } else {
        flat_free(m.drop_last()) + m.last().free
    }
}

/// Bytes in use over all groups.
pub open spec fn used_sum(m: Seq<BgV>) -> int
    decreases m.len(),
{
    if m.len() == 0 {
        0
    } else {
        used_sum(m.drop_last()) + m.last().group.used
    }
}

/// Free bytes over all groups that hold data.
pub open spec fn data_free_sum(m: Seq<BgV>) -> int
    decreases m.len(),
{
    if m.len() == 0 {
        0
    } else {
        data_free_sum(m.drop_last()) + if m.last().group.flags & BLOCK_GROUP_DATA != 0 {
            m.last().total_free as int
        } else {
            0
        }
    }
}

proof fn sums_bound(m: Seq<BgV>)
    ensures
        used_sum(m) >= 0,
        data_free_sum(m) >= 0,
    decreases m.len(),
{
    if m.len() > 0 {
        sums_bound(m.drop_last());
    }
}

fn copy_extents(v: &Vec<AllocatedExtent>) -> (r: Vec<AllocatedExtent>)
    ensures
        allocs_of(r@) == allocs_of(v@),
{
    let mut r: Vec<AllocatedExtent> = Vec::new();
    let mut i: usize = 0;
    while i < v.len()
        invariant
            i <= v@.len(),
            allocs_of(r@) == allocs_of(v@).take(i as int),
        decreases v@.len() - i,
    {
        let ghost before = r@;
        r.push(v[i].clone());
        proof {
            assert(allocs_of(r@) =~= allocs_of(before).push(v@[i as int]@));
            assert(allocs_of(r@) =~= allocs_of(v@).take(i + 1));
        }
        i += 1;
    }
    assert(allocs_of(r@) =~= allocs_of(v@));
    r
}

impl Clone for BlockGroupFreeSpace {
    fn clone(&self) -> (r: Self)
        ensures
            r@ == self@,
    {
        BlockGroupFreeSpace {
            block_group: self.block_group,
            allocated_extents: copy_extents(&self.allocated_extents),
            free_ranges: copy_vec(&self.free_ranges),
            pinned_freed: copy_vec(&self.pinned_freed),
            excluded_ranges: copy_vec(&self.excluded_ranges),
            total_allocated_bytes: self.total_allocated_bytes,
            total_free_bytes: self.total_free_bytes,
        }
    }
}

impl BlockGroupFreeSpace {
    fn end(&self) -> (r: u64)
        ensures
            r == self@.end(),
    {
        self.block_group.start.saturating_add(self.block_group.length)
    }

    fn carve_range(&mut self, i: usize, x: u64, y: u64)
        requires
            i < old(self)@.free.len(),
            x <= y,
        ensures
            final(self)@ == carve_bg(old(self)@, i as int, x, y),
    {
        let n: u64 = y - x;
        self.free_ranges = carve_out(&self.free_ranges, i, x, y);
        self.total_allocated_bytes = self.total_allocated_bytes.saturating_add(n);
        self.total_free_bytes = self.total_free_bytes.saturating_sub(n);
        self.block_group.used = self.block_group.used.saturating_add(n);
    }

    fn pin_range(&mut self, a: u64, length: u64)
        ensures
            final(self)@ == pin_bg(old(self)@, a, length),
    {
        let ghost f = |r: FreeRange| r.start >= a;
        let n: usize = self.pinned_freed.len();
        let mut i: usize = 0;
        while i < n && self.pinned_freed[i].start < a
            invariant
                i <= n,
                n == self.pinned_freed@.len(),
                *self == *old(self),
                f == (|r: FreeRange| r.start >= a),
                forall|j: int| 0 <= j < i ==> !f(#[trigger] self.pinned_freed@[j]),
            decreases n - i,
        {
            i += 1;
        }
        proof {
            first_idx_is(self.pinned_freed@, f, i as int);
        }
        self.pinned_freed.insert(i, FreeRange { start: a, length });
        self.pinned_freed = adjoin_ranges(&self.pinned_freed);
        self.block_group.used = self.block_group.used.saturating_sub(length);
    }

    fn unpin(&mut self)
        ensures
            final(self)@ == unpin_bg(old(self)@),
    {
        if self.pinned_freed.len() == 0 {
            return;
        }
        let mut all = copy_vec(&self.free_ranges);
        append_vec(&mut all, &self.pinned_freed);
        self.pinned_freed = Vec::new();
        let mut free = normalize(all);
        let ghost base = free@;
        let n: usize = self.excluded_ranges.len();
        let mut i: usize = 0;
        assert(self.excluded_ranges@.take(0) =~= Seq::<FreeRange>::empty());
        while i < n
            invariant
                i <= n,
                n == self.excluded_ranges@.len(),
                free@ == cut_holes(base, self.excluded_ranges@.take(i as int)),
            decreases n - i,
        {
            let x = self.excluded_ranges[i];
            proof {
                assert(self.excluded_ranges@.take(i + 1).drop_last()
                    =~= self.excluded_ranges@.take(i as int));
            }
            let mut dropped: Vec<FreeRange> = Vec::new();
            free = cut_ranges(&free, x.start, x.end(), &mut dropped);
            i += 1;
        }
        assert(self.excluded_ranges@.take(n as int) =~= self.excluded_ranges@);
        self.total_free_bytes = sum_ranges(&free);
        self.free_ranges = free;
        assert(self@ =~= unpin_bg(old(self)@));
    }

    fn exclude(&mut self, s: u64, e: u64)
        ensures
            final(self)@ == exclude_bg(old(self)@, s, e),
    {
        let lo: u64 = if s > self.block_group.start {
            s
        } else {
            self.block_group.start
        };
        let end: u64 = self.end();
        let hi: u64 = if e < end {
            e
        } else {
            end
        };
        if s >= e || lo >= hi {
            return;
        }
        let mut excluded = copy_vec(&self.excluded_ranges);
        let free = cut_ranges(&self.free_ranges, lo, hi, &mut excluded);
        self.total_free_bytes = sum_ranges(&free);
        self.free_ranges = free;
        self.excluded_ranges = normalize(excluded);
    }

    /// The free-space tree items of this group, behind `items`.
    fn append_items(&self, items: &mut Vec<LeafItem>)
        ensures
            items_of(final(items)@) == items_of(old(items)@) + group_items(self@),
    {
        let mut all = copy_vec(&self.free_ranges);
        append_vec(&mut all, &self.pinned_freed);
        append_vec(&mut all, &self.excluded_ranges);
        let ranges = normalize(all);
        let n: usize = ranges.len();
        let mut info: Vec<u8> = Vec::new();
        append_u32(&mut info, n as u32);
        append_u32(&mut info, 0);
        assert(info@ =~= enc32(shown(self@).len() as u32) + enc32(0));
        let ghost before = items_of(items@);
        let first = LeafItem {
            key: Key::new(
                self.block_group.start,
                FREE_SPACE_INFO_KEY,
                self.block_group.length,
            ),
            data: info,
        };
        let ghost v0 = items@;
        items.push(first);
        assert(items_of(items@) =~= items_of(v0).push(first@));
        let mut i: usize = 0;
        assert(items_of(items@) =~= before + group_items(self@).take(1));
        while i < n
            invariant
                i <= n,
                n == ranges@.len(),
                ranges@ == shown(self@),
                items_of(items@) == before + group_items(self@).take(i + 1),
            decreases n - i,
        {
            let r = ranges[i];
            let it = LeafItem {
                key: Key::new(r.start, FREE_SPACE_EXTENT_KEY, r.length),
                data: Vec::new(),
            };
            let ghost vb = items@;
            items.push(it);
            proof {
                assert(items_of(items@) =~= items_of(vb).push(it@));
                assert(it@.data =~= Seq::<u8>::empty());
                assert(it@ == group_items(self@)[i + 1]);
                assert(items_of(items@) =~= before + group_items(self@).take(i + 2));
            }
            i += 1;
        }
        assert(group_items(self@).take(n + 1) =~= group_items(self@));
    }
}

/// One group's free space.
fn derive_group(bg: &BlockGroupItem, extents: &Vec<AllocatedExtent>) -> (r: Result<
    BlockGroupFreeSpace,
>)
    ensures
        match r {
            Ok(b) => group_space(*bg, allocs_of(extents@)) == Ok::<BgV, Fault>(b@),
            Err(e) => group_space(*bg, allocs_of(extents@)) == Err::<BgV, Fault>(e@),
        },
{
    let ghost all = allocs_of(extents@);
    if bg.start > u64::MAX - bg.length {
        return Err(LuksError::CorruptFs("block group range overflow"));
    }
    let end: u64 = bg.start + bg.length;
    let n: usize = extents.len();
    let mut inside: Vec<AllocatedExtent> = Vec::new();
    let mut free: Vec<FreeRange> = Vec::new();
    let mut total: u128 = 0;
    let mut cursor: u64 = bg.start;
    let mut i: usize = 0;
    assert(all.take(0) =~= Seq::<AllocV>::empty());
    assert(allocs_of(inside@) =~= Seq::<AllocV>::empty());
    while i < n
        invariant
            i <= n,
            n == extents@.len(),
            all == allocs_of(extents@),
            end == bg.start + bg.length,
            allocs_of(inside@) == scan(*bg, all.take(i as int)).inside,
            free@ == scan(*bg, all.take(i as int)).free,
            total == scan(*bg, all.take(i as int)).total,
            total <= i * 0xFFFF_FFFF_FFFF_FFFF,
            cursor == scan(*bg, all.take(i as int)).cursor,
        decreases n - i,
    {
        let x = &extents[i];
        proof {
            assert(all.take(i + 1).drop_last() =~= all.take(i as int));
            assert(all.take(i + 1).last() == x@);
            assert((i + 1) * 0xFFFF_FFFF_FFFF_FFFF <= 0xFFFF_FFFF_FFFF_FFFF
                * 0xFFFF_FFFF_FFFF_FFFF + 0xFFFF_FFFF_FFFF_FFFF);
        }
        if bg.start <= x.bytenr && x.bytenr < end {
            let ghost before = inside@;
            inside.push(x.clone());
            assert(allocs_of(inside@) =~= allocs_of(before).push(x@));
            push_gap(&mut free, cursor, x.bytenr);
            total = total + x.length as u128;
            cursor = x.bytenr.saturating_add(x.length);
        }
        i += 1;
    }
    assert(all.take(n as int) =~= all);
    push_gap(&mut free, cursor, end);
    if total != bg.used as u128 {
        return Err(
            LuksError::CorruptFs("extent tree allocations do not match block group used counter"),
        );
    }
    let spare: u128 = sum_exact(&free);
    if spare > 0xFFFF_FFFF_FFFF_FFFF || total + spare != bg.length as u128 {
        return Err(
            LuksError::CorruptFs(
                "sum of allocated and free space does not match block group length",
            ),
        );
    }
    let r = BlockGroupFreeSpace {
        block_group: *bg,
        allocated_extents: inside,
        free_ranges: free,
        pinned_freed: Vec::new(),
        excluded_ranges: Vec::new(),
        total_allocated_bytes: total as u64,
        total_free_bytes: spare as u64,
    };
    proof {
        range_sum_bound(free@);
        assert(r@.pinned =~= Seq::<FreeRange>::empty());
        assert(r@.excluded =~= Seq::<FreeRange>::empty());
    }
    Ok(r)
}

impl Clone for FreeSpaceMap {
    fn clone(&self) -> (r: Self)
        ensures
            r@ == self@,
    {
        let mut v: Vec<BlockGroupFreeSpace> = Vec::new();
        let mut i: usize = 0;
        while i < self.block_groups.len()
            invariant
                i <= self.block_groups@.len(),
                bgs_of(v@) == bgs_of(self.block_groups@).take(i as int),
            decreases self.block_groups@.len() - i,
        {
            let ghost before = v@;
            v.push(self.block_groups[i].clone());
            proof {
                assert(bgs_of(v@) =~= bgs_of(before).push(self.block_groups@[i as int]@));
                assert(bgs_of(v@) =~= bgs_of(self.block_groups@).take(i + 1));
            }
            i += 1;
        }
        let r = FreeSpaceMap { block_groups: v };
        assert(r@ =~= self@);
        r
    }
}

impl FreeSpaceMap {
    /// Derive the map from the extent tree.
    ///
    /// A group is refused where the bytes of its extents differ from its used
    /// counter, or where extents and gaps do not add up to its length.
    pub fn from_extent_tree(extent_tree: &ExtentTree) -> (r: Result<Self>)
        ensures
            match r {
                Ok(m) => space_of(extent_tree@.block_groups, extent_tree@.extents) == Ok::<
                    Seq<BgV>,
                    Fault,
                >(m@),
                Err(e) => space_of(extent_tree@.block_groups, extent_tree@.extents) == Err::<
                    Seq<BgV>,
                    Fault,
                >(e@),
            },
    {
        let ghost all = extent_tree@.block_groups;
        let ghost exts = extent_tree@.extents;
        let n: usize = extent_tree.block_groups.len();
        let mut v: Vec<BlockGroupFreeSpace> = Vec::new();
        let mut i: usize = 0;
        assert(all.take(0) =~= Seq::<BlockGroupItem>::empty());
        assert(bgs_of(v@) =~= Seq::<BgV>::empty());
        while i < n
            invariant
                i <= n,
                n == extent_tree.block_groups@.len(),
                all == extent_tree.block_groups@,
                exts == allocs_of(extent_tree.extents@),
                space_of(all.take(i as int), exts) == Ok::<Seq<BgV>, Fault>(bgs_of(v@)),
            decreases n - i,
        {
            let bg = extent_tree.block_groups[i];
            proof {
                assert(all.take(i + 1).drop_last() =~= all.take(i as int));
                assert(all.take(i + 1).last() == bg);
            }
            match derive_group(&bg, &extent_tree.extents) {
                Ok(b) => {
                    let ghost before = v@;
                    v.push(b);
                    assert(bgs_of(v@) =~= bgs_of(before).push(b@));
                },
                Err(e) => {
                    proof {
                        space_of_err(all, exts, i + 1, e@);
                    }
                    return Err(e);
                },
            }
            i += 1;
        }
        assert(all.take(n as int) =~= all);
        Ok(FreeSpaceMap { block_groups: v })
    }

    /// Withhold `exclusions` (such as superblock mirrors) from allocation.
    pub fn exclude_ranges(&mut self, exclusions: &[Range<u64>])
        ensures
            final(self)@ == exclude(old(self)@, exclusions@),
    {
        let mut k: usize = 0;
        assert(exclusions@.take(0) =~= Seq::<Range<u64>>::empty());
        while k < exclusions.len()
            invariant
                k <= exclusions@.len(),
                self@ == exclude(old(self)@, exclusions@.take(k as int)),
            decreases exclusions@.len() - k,
        {
            let s: u64 = exclusions[k].start;
            let e: u64 = exclusions[k].end;
            let ghost f = |b: BgV| exclude_bg(b, s, e);
            let ghost before = self@;
            let n: usize = self.block_groups.len();
            let mut i: usize = 0;
            assert(self@ =~= before.take(0).map_values(f) + before.skip(0));
            while i < n
                invariant
                    i <= n,
                    n == before.len(),
                    self.block_groups@.len() == n,
                    f == (|b: BgV| exclude_bg(b, s, e)),
                    self@ == before.take(i as int).map_values(f) + before.skip(i as int),
                decreases n - i,
            {
                let ghost here = self@;
                assert(here[i as int] == self.block_groups@[i as int]@);
                self.block_groups[i].exclude(s, e);
                proof {
                    assert(self@ =~= here.update(i as int, f(before[i as int])));
                    assert(self@ =~= before.take(i + 1).map_values(f) + before.skip(i + 1));
                }
                i += 1;
            }
            proof {
                assert(self@ =~= before.map_values(f));
                assert(exclusions@.take(k + 1).drop_last() =~= exclusions@.take(k as int));
                assert(exclusions@.take(k + 1).last() == exclusions@[k as int]);
            }
            k += 1;
        }
        assert(exclusions@.take(exclusions@.len() as int) =~= exclusions@);
    }

    /// All free ranges in address order.
    pub fn all_free_ranges(&self) -> (r: Vec<FreeRange>)
        ensures
            r@ == stable_sort(flat_free(self@)),
    {
        let mut v: Vec<FreeRange> = Vec::new();
        let mut i: usize = 0;
        assert(self@.take(0) =~= Seq::<BgV>::empty());
        while i < self.block_groups.len()
            invariant
                i <= self.block_groups@.len(),
                v@ == flat_free(self@.take(i as int)),
            decreases self.block_groups@.len() - i,
        {
            proof {
                assert(self@.take(i + 1).drop_last() =~= self@.take(i as int));
                assert(self@.take(i + 1).last() == self.block_groups@[i as int]@);
            }
            append_vec(&mut v, &self.block_groups[i].free_ranges);
            i += 1;
        }
        assert(self@.take(self@.len() as int) =~= self@);
        sort_ranked(&mut v);
        v
    }

    /// A free range of `min_bytes` in the first group that has all bits of
    /// `flags_mask` and room for it.
    pub fn find_free_range(&self, flags_mask: u64, min_bytes: u64, alignment: u64) -> (r: Option<
        FreeRange,
    >)
        ensures
            ({
                let g = first_idx(
                    self@,
                    |b: BgV|
                        b.group.flags & flags_mask == flags_mask && fit_idx(
                            b.free,
                            min_bytes,
                            alignment,
                        ) < b.free.len(),
                );
                r == if g < self@.len() {
                    Some(
                        FreeRange {
                            start: fit(
                                self@[g].free[fit_idx(self@[g].free, min_bytes, alignment)],
                                min_bytes,
                                alignment,
                            )->Some_0,
                            length: min_bytes,
                        },
                    )
                } else {
                    None::<FreeRange>
                }
            }),
    {
        let ghost f = |b: BgV|
            b.group.flags & flags_mask == flags_mask && fit_idx(b.free, min_bytes, alignment)
                < b.free.len();
        let n: usize = self.block_groups.len();
        let mut g: usize = 0;
        while g < n
            invariant
                g <= n,
                n == self.block_groups@.len(),
                f == (|b: BgV|
                    b.group.flags & flags_mask == flags_mask && fit_idx(
                        b.free,
                        min_bytes,
                        alignment,
                    ) < b.free.len()),
                forall|j: int| 0 <= j < g ==> !f(#[trigger] self@[j]),
            decreases n - g,
        {
            assert(self@[g as int] == self.block_groups@[g as int]@);
            if self.block_groups[g].block_group.flags & flags_mask == flags_mask {
                let i: usize = find_fit(&self.block_groups[g].free_ranges, min_bytes, alignment);
                if i < self.block_groups[g].free_ranges.len() {
                    proof {
                        first_idx_is(self@, f, g as int);
                        first_idx_props(
                            self@[g as int].free,
                            |r: FreeRange| fit(r, min_bytes, alignment) is Some,
                        );
                    }
                    match fit_at(&self.block_groups[g].free_ranges[i], min_bytes, alignment) {
                        Some(start) => {
                            return Some(FreeRange { start, length: min_bytes });
                        },
                        None => {},
                    }
                }
            }
            g += 1;
        }
        proof {
            first_idx_is(self@, f, n as int);
        }
        None
    }

    /// Take `needed` bytes aligned to `a` by first fit.
    fn take_first_fit(&mut self, flag: u64, needed: u64, a: u64) -> (r: Result<u64>)
        ensures
            match r {
                Ok(x) => first_fit(old(self)@, flag, needed, a) == Some((x, final(self)@)),
                Err(e) => {
                    &&& first_fit(old(self)@, flag, needed, a) is None
                    &&& e@ == Fault::FilesystemFull
                    &&& final(self)@ == old(self)@
                },
            },
    {
        let ghost m = self@;
        let ghost f = |b: BgV| has_room(b, flag, needed, a);
        let n: usize = self.block_groups.len();
        let mut g: usize = 0;
        while g < n
            invariant
                g <= n,
                n == self.block_groups@.len(),
                *self == *old(self),
                m == self@,
                f == (|b: BgV| has_room(b, flag, needed, a)),
                forall|j: int| 0 <= j < g ==> !f(#[trigger] m[j]),
            decreases n - g,
        {
            assert(m[g as int] == self.block_groups@[g as int]@);
            if self.block_groups[g].block_group.flags & flag != 0 {
                let i: usize = find_fit(&self.block_groups[g].free_ranges, needed, a);
                if i < self.block_groups[g].free_ranges.len() {
                    proof {
                        first_idx_is(m, f, g as int);
                        first_idx_props(
                            m[g as int].free,
                            |r: FreeRange| fit(r, needed, a) is Some,
                        );
                    }
                    match fit_at(&self.block_groups[g].free_ranges[i], needed, a) {
                        Some(x) => {
                            self.block_groups[g].carve_range(i, x, x + needed);
                            proof {
                                assert(self@ =~= m.update(
                                    g as int,
                                    carve_bg(m[g as int], i as int, x, (x + needed) as u64),
                                ));
                            }
                            return Ok(x);
                        },
                        None => {},
                    }
                }
            }
            g += 1;
        }
        proof {
            first_idx_is(m, f, n as int);
        }
        Err(LuksError::FilesystemFull)
    }

    /// Allocate a metadata block of `size` bytes for the tree `owner`.
    pub fn allocate_metadata_for_owner(&mut self, size: u32, owner: u64) -> (r: Result<u64>)
        ensures
            match r {
                Ok(x) => alloc_meta(old(self)@, size, owner) == Some((x, final(self)@)),
                Err(e) => {
                    &&& alloc_meta(old(self)@, size, owner) is None
                    &&& e@ == Fault::FilesystemFull
                    &&& final(self)@ == old(self)@
                },
            },
    {
        reveal(alloc_meta);
        let flag: u64 = if owner == CHUNK_TREE_OBJECTID {
            BLOCK_GROUP_SYSTEM
        } else {
            BLOCK_GROUP_METADATA
        };
        self.take_first_fit(flag, size as u64, size as u64)
    }

    /// Allocate a metadata block of `size` bytes.
    pub fn allocate_metadata(&mut self, size: u32) -> (r: Result<u64>)
        ensures
            match r {
                Ok(x) => alloc_meta(old(self)@, size, 0) == Some((x, final(self)@)),
                Err(e) => {
                    &&& alloc_meta(old(self)@, size, 0) is None
                    &&& e@ == Fault::FilesystemFull
                    &&& final(self)@ == old(self)@
                },
            },
    {
        self.allocate_metadata_for_owner(size, 0)
    }

    /// Allocate a data extent of `size` bytes aligned to `sector_size`.
    pub fn allocate_data(&mut self, size: u64, sector_size: u32) -> (r: Result<u64>)
        ensures
            match r {
                Ok(x) => first_fit(old(self)@, BLOCK_GROUP_DATA, size, sector_size as u64) == Some(
                    (x, final(self)@),
                ) && x + size <= u64::MAX,
                Err(e) => {
                    &&& first_fit(old(self)@, BLOCK_GROUP_DATA, size, sector_size as u64) is None
                    &&& e@ == Fault::FilesystemFull
                    &&& final(self)@ == old(self)@
                },
            },
    {
        proof {
            first_fit_in_space(self@, BLOCK_GROUP_DATA, size, sector_size as u64);
        }
        self.take_first_fit(BLOCK_GROUP_DATA, size, sector_size as u64)
    }

    /// Allocate a data run of up to `max_size` bytes, a whole number of
    /// sectors, out of the range that offers most.
    pub fn allocate_data_chunk(&mut self, max_size: u64, sector_size: u32) -> (r: Result<
        (u64, u64),
    >)
        requires
            sector_size > 0,
        ensures
            match r {
                Ok((x, n)) => alloc_run(old(self)@, max_size, sector_size) == Some(
                    (x, n, final(self)@),
                ) && 0 < n <= max_size && x + n <= u64::MAX,
                Err(e) => {
                    &&& alloc_run(old(self)@, max_size, sector_size) is None
                    &&& e@ == Fault::FilesystemFull
                    &&& final(self)@ == old(self)@
                },
            },
    {
        reveal(alloc_run);
        let a: u64 = sector_size as u64;
        proof {
            vstd::arithmetic::div_mod::lemma_fundamental_div_mod(max_size as int, a as int);
            vstd::arithmetic::div_mod::lemma_mod_bound(max_size as int, a as int);
            vstd::arithmetic::mul::lemma_mul_is_commutative(max_size as int / a as int, a as int);
        }
        let max: u64 = (max_size / a) * a;
        if max == 0 {
            return Err(LuksError::FilesystemFull);
        }
        let ghost m = self@;
        let n: usize = self.block_groups.len();
        let mut best_group: usize = 0;
        let mut best_range: usize = 0;
        let mut best_len: u64 = 0;
        let mut g: usize = 0;
        assert(m.take(0) =~= Seq::<BgV>::empty());
        while g < n
            invariant
                g <= n,
                n == self.block_groups@.len(),
                *self == *old(self),
                m == self@,
                a > 0,
                (best_group as int, best_range as int, best_len as int) == best_run(
                    m.take(g as int),
                    max as int,
                    a,
                ),
            decreases n - g,
        {
            proof {
                assert(m.take(g + 1).drop_last() =~= m.take(g as int));
                assert(m.take(g + 1).last() == self.block_groups@[g as int]@);
            }
            if bg_holds_data(self.block_groups[g].block_group.flags) {
                let (i, len) = find_longest(&self.block_groups[g].free_ranges, max, a);
                if len > best_len {
                    best_group = g;
                    best_range = i;
                    best_len = len;
                }
            }
            g += 1;
        }
        assert(m.take(n as int) =~= m);
        if best_len == 0 {
            return Err(LuksError::FilesystemFull);
        }
        proof {
            best_run_props(m, max as int, a);
            assert(m[best_group as int] == self.block_groups@[best_group as int]@);
        }
        let r = self.block_groups[best_group].free_ranges[best_range];
        proof {
            align_up_bounds(r.start, a);
            let x = align_up(r.start, a)->Some_0;
            vstd::arithmetic::div_mod::lemma_fundamental_div_mod(r.spec_end() - x, a as int);
            vstd::arithmetic::div_mod::lemma_mod_bound(r.spec_end() - x, a as int);
            vstd::arithmetic::mul::lemma_mul_is_commutative(
                (r.spec_end() - x) / a as int,
                a as int,
            );
        }
        match align_up_to(r.start, a) {
            Some(x) => {
                self.block_groups[best_group].carve_range(best_range, x, x + best_len);
                proof {
                    assert(self@ =~= m.update(
                        best_group as int,
                        carve_bg(
                            m[best_group as int],
                            best_range as int,
                            x,
                            (x + best_len) as u64,
                        ),
                    ));
                }
                Ok((x, best_len))
            },
            None => Err(LuksError::FilesystemFull),
        }
    }

    /// Mark `[bytenr, bytenr + length)` as allocated.
    pub fn mark_allocated(&mut self, bytenr: u64, length: u64) -> (r: Result<()>)
        ensures
            match r {
                Ok(()) => mark(old(self)@, bytenr, length) == Ok::<Seq<BgV>, Fault>(final(self)@),
                Err(e) => mark(old(self)@, bytenr, length) == Err::<Seq<BgV>, Fault>(e@)
                    && final(self)@ == old(self)@,
            },
    {
        if length == 0 {
            return Ok(());
        }
        if bytenr > u64::MAX - length {
            return Err(LuksError::OutOfBounds);
        }
        let end: u64 = bytenr + length;
        let ghost m = self@;
        let g: usize = self.group_of(bytenr, end);
        if g == self.block_groups.len() {
            return Err(LuksError::OutOfBounds);
        }
        assert(m[g as int] == self.block_groups@[g as int]@);
        let ghost f = |r: FreeRange| r.start <= bytenr && end <= r.spec_end();
        let n: usize = self.block_groups[g].free_ranges.len();
        let mut i: usize = 0;
        while i < n && !(self.block_groups[g].free_ranges[i].start <= bytenr && end
            <= self.block_groups[g].free_ranges[i].end())
            invariant
                i <= n,
                g < self.block_groups@.len(),
                n == self.block_groups@[g as int].free_ranges@.len(),
                *self == *old(self),
                f == (|r: FreeRange| r.start <= bytenr && end <= r.spec_end()),
                forall|j: int|
                    0 <= j < i ==> !f(#[trigger] self.block_groups@[g as int].free_ranges@[j]),
            decreases n - i,
        {
            i += 1;
        }
        proof {
            first_idx_is(m[g as int].free, f, i as int);
        }
        if i == n {
            return Err(
                LuksError::CorruptFs(
                    "range to mark allocated was not present in block group free ranges",
                ),
            );
        }
        self.block_groups[g].carve_range(i, bytenr, end);
        assert(self@ =~= m.update(g as int, carve_bg(m[g as int], i as int, bytenr, end)));
        Ok(())
    }

    /// The first group that contains `[a, b)`, or the number of groups.
    fn group_of(&self, a: u64, b: u64) -> (g: usize)
        ensures
            g == first_idx(self@, |x: BgV| x.contains(a, b)),
            g <= self@.len(),
    {
        let ghost f = |x: BgV| x.contains(a, b);
        let n: usize = self.block_groups.len();
        let mut g: usize = 0;
        while g < n && !(self.block_groups[g].block_group.start <= a && b
            <= self.block_groups[g].end())
            invariant
                g <= n,
                n == self.block_groups@.len(),
                f == (|x: BgV| x.contains(a, b)),
                forall|j: int| 0 <= j < g ==> !f(#[trigger] self@[j]),
            decreases n - g,
        {
            assert(self@[g as int] == self.block_groups@[g as int]@);
            g += 1;
        }
        proof {
            if g < n {
                assert(self@[g as int] == self.block_groups@[g as int]@);
            }
            first_idx_is(self@, f, g as int);
        }
        g
    }

    /// Free a data extent of `size` bytes at `bytenr`.
    ///
    /// The extent stays pinned until [`FreeSpaceMap::unpin_freed`], so it is not
    /// reused in the same transaction. A range that overflows, lies in no group,
    /// exceeds the group's used bytes or is already pending release is refused.
    pub fn free_data(&mut self, bytenr: u64, size: u64) -> (r: Result<()>)
        ensures
            match r {
                Ok(()) => free_extent(old(self)@, bytenr, size) == Ok::<Seq<BgV>, Fault>(
                    final(self)@,
                ),
                Err(e) => free_extent(old(self)@, bytenr, size) == Err::<Seq<BgV>, Fault>(e@)
                    && final(self)@ == old(self)@,
            },
    {
        reveal(free_extent);
        if size == 0 {
            return Ok(());
        }
        if bytenr > u64::MAX - size {
            return Err(LuksError::CorruptFs("free_data range overflows u64"));
        }
        let end: u64 = bytenr + size;
        let ghost m = self@;
        let g: usize = self.group_of(bytenr, end);
        if g == self.block_groups.len() {
            return Err(
                LuksError::CorruptFs("free_data range is not contained in any block group"),
            );
        }
        assert(m[g as int] == self.block_groups@[g as int]@);
        if self.block_groups[g].block_group.used < size {
            return Err(
                LuksError::CorruptFs(
                    "free_data would free more bytes than the block group has allocated",
                ),
            );
        }
        let n: usize = self.block_groups[g].pinned_freed.len();
        let mut i: usize = 0;
        while i < n
            invariant
                i <= n,
                g < self.block_groups@.len(),
                g == first_idx(m, |x: BgV| x.contains(bytenr, end)),
                m == self@,
                m[g as int] == self.block_groups@[g as int]@,
                m[g as int].group.used >= size,
                size > 0,
                end == bytenr + size,
                n == self.block_groups@[g as int].pinned_freed@.len(),
                *self == *old(self),
                forall|j: int|
                    0 <= j < i ==> !(bytenr < (#[trigger] m[g as int].pinned[j]).spec_end()
                        && m[g as int].pinned[j].start < end),
            decreases n - i,
        {
            reveal(free_extent);
            let p = self.block_groups[g].pinned_freed[i];
            if bytenr < p.end() && p.start < end {
                assert(m[g as int].pinned[i as int] == p);
                return Err(
                    LuksError::CorruptFs(
                        "free_data range overlaps a range already pending release in this transaction",
                    ),
                );
            }
            i += 1;
        }
        self.block_groups[g].pin_range(bytenr, size);
        assert(self@ =~= m.update(g as int, pin_bg(m[g as int], bytenr, size)));
        Ok(())
    }

    /// Free a metadata block of `size` bytes at `bytenr`.
    ///
    /// The block stays pinned until [`FreeSpaceMap::unpin_freed`]. A block in no
    /// group is ignored.
    pub fn free_metadata(&mut self, bytenr: u64, size: u32) -> (r: Result<()>)
        ensures
            r is Ok,
            final(self)@ == free_block(old(self)@, bytenr, size),
    {
        reveal(free_block);
        let ghost f = |x: BgV|
            bytenr + size <= u64::MAX && x.contains(bytenr, (bytenr + size) as u64);
        let ghost m = self@;
        if bytenr > u64::MAX - size as u64 {
            proof {
                first_idx_is(m, f, m.len() as int);
            }
            return Ok(());
        }
        let end: u64 = bytenr + size as u64;
        let g: usize = self.group_of(bytenr, end);
        proof {
            first_idx_props(m, |x: BgV| x.contains(bytenr, end));
            first_idx_is(m, f, g as int);
        }
        if g < self.block_groups.len() {
            assert(m[g as int] == self.block_groups@[g as int]@);
            self.block_groups[g].pin_range(bytenr, size as u64);
            assert(self@ =~= m.update(g as int, pin_bg(m[g as int], bytenr, size as u64)));
        }
        Ok(())
    }

    /// Return pinned ranges to the free ranges once their transaction has
    /// committed, except what is excluded.
    pub fn unpin_freed(&mut self)
        ensures
            final(self)@ == unpin(old(self)@),
    {
        let ghost f = |b: BgV| unpin_bg(b);
        let ghost before = self@;
        let n: usize = self.block_groups.len();
        let mut i: usize = 0;
        assert(self@ =~= before.take(0).map_values(f) + before.skip(0));
        while i < n
            invariant
                i <= n,
                n == before.len(),
                self.block_groups@.len() == n,
                f == (|b: BgV| unpin_bg(b)),
                self@ == before.take(i as int).map_values(f) + before.skip(i as int),
            decreases n - i,
        {
            let ghost here = self@;
            assert(here[i as int] == self.block_groups@[i as int]@);
            self.block_groups[i].unpin();
            proof {
                assert(self@ =~= here.update(i as int, f(before[i as int])));
                assert(self@ =~= before.take(i + 1).map_values(f) + before.skip(i + 1));
            }
            i += 1;
        }
        assert(self@ =~= before.map_values(f));
    }

    /// The complete list of free-space tree items: free, pinned and excluded
    /// ranges of every group, united.
    pub fn emit_free_space_tree_items(&self) -> (r: Vec<LeafItem>)
        ensures
            items_of(r@) == space_items(self@),
    {
        let mut items: Vec<LeafItem> = Vec::new();
        let mut i: usize = 0;
        assert(self@.take(0) =~= Seq::<BgV>::empty());
        assert(items_of(items@) =~= Seq::<Item>::empty());
        while i < self.block_groups.len()
            invariant
                i <= self.block_groups@.len(),
                items_of(items@) == space_items(self@.take(i as int)),
            decreases self.block_groups@.len() - i,
        {
            proof {
                assert(self@.take(i + 1).drop_last() =~= self@.take(i as int));
                assert(self@.take(i + 1).last() == self.block_groups@[i as int]@);
            }
            self.block_groups[i].append_items(&mut items);
            i += 1;
        }
        assert(self@.take(self@.len() as int) =~= self@);
        items
    }

    /// Bytes in use over all groups, capped at `u64::MAX`.
    pub fn total_used(&self) -> (r: u64)
        ensures
            r == cap64(used_sum(self@)),
    {
        let mut sum: u64 = 0;
        let mut i: usize = 0;
        assert(self@.take(0) =~= Seq::<BgV>::empty());
        while i < self.block_groups.len()
            invariant
                i <= self.block_groups@.len(),
                sum == cap64(used_sum(self@.take(i as int))),
            decreases self.block_groups@.len() - i,
        {
            proof {
                assert(self@.take(i + 1).drop_last() =~= self@.take(i as int));
                assert(self@.take(i + 1).last() == self.block_groups@[i as int]@);
                sums_bound(self@.take(i as int));
            }
            sum = sum.saturating_add(self.block_groups[i].block_group.used);
            i += 1;
        }
        assert(self@.take(self@.len() as int) =~= self@);
        sum
    }

    /// Free bytes over all groups that hold data, capped at `u64::MAX`.
    pub fn total_free_data(&self) -> (r: u64)
        ensures
            r == cap64(data_free_sum(self@)),
    {
        let mut sum: u64 = 0;
        let mut i: usize = 0;
        assert(self@.take(0) =~= Seq::<BgV>::empty());
        while i < self.block_groups.len()
            invariant
                i <= self.block_groups@.len(),
                sum == cap64(data_free_sum(self@.take(i as int))),
            decreases self.block_groups@.len() - i,
        {
            proof {
                assert(self@.take(i + 1).drop_last() =~= self@.take(i as int));
                assert(self@.take(i + 1).last() == self.block_groups@[i as int]@);
                sums_bound(self@.take(i as int));
            }
            if bg_holds_data(self.block_groups[i].block_group.flags) {
                sum = sum.saturating_add(self.block_groups[i].total_free_bytes);
            }
            i += 1;
        }
        assert(self@.take(self@.len() as int) =~= self@);
        sum
    }
}

/// The first longest run over `free`: its position and length.
fn find_longest(free: &Vec<FreeRange>, max: u64, a: u64) -> (r: (usize, u64))
    requires
        a > 0,
    ensures
        (r.0 as int, r.1 as int) == longest_run(free@, max as int, a),
{
    let n: usize = free.len();
    let mut best: usize = 0;
    let mut best_len: u64 = 0;
    let mut i: usize = 0;
    assert(free@.take(0) =~= Seq::<FreeRange>::empty());
    while i < n
        invariant
            i <= n,
            n == free@.len(),
            a > 0,
            (best as int, best_len as int) == longest_run(free@.take(i as int), max as int, a),
        decreases n - i,
    {
        proof {
            assert(free@.take(i + 1).drop_last() =~= free@.take(i as int));
            assert(free@.take(i + 1).last() == free@[i as int]);
        }
        let len: u64 = run_at(&free[i], max, a);
        if len > best_len {
            best = i;
            best_len = len;
        }
        i += 1;
    }
    assert(free@.take(n as int) =~= free@);
    (best, best_len)
}

fn run_at(r: &FreeRange, max: u64, a: u64) -> (n: u64)
    requires
        a > 0,
    ensures
        n == run_len(*r, max as int, a),
{
    match align_up_to(r.start, a) {
        Some(x) => {
            let end: u64 = r.end();
            if x < end {
                let avail: u64 = end - x;
                proof {
                    vstd::arithmetic::div_mod::lemma_fundamental_div_mod(avail as int, a as int);
                    vstd::arithmetic::div_mod::lemma_mod_bound(avail as int, a as int);
                    vstd::arithmetic::mul::lemma_mul_is_commutative(
                        avail as int / a as int,
                        a as int,
                    );
                }
                let usable: u64 = (avail / a) * a;
                if usable < max {
                    usable
                } else {
                    max
                }
            } else {
                0
            }
        },
        None => 0,
    }
}

/// A first fit lies inside the address space.
pub proof fn first_fit_in_space(m: Seq<BgV>, flag: u64, needed: u64, a: u64)
    ensures
        first_fit(m, flag, needed, a) matches Some((x, _)) ==> x + needed <= u64::MAX,
{
    let g = room_idx(m, flag, needed, a);
    first_idx_props(m, |b: BgV| has_room(b, flag, needed, a));
    if g < m.len() {
        first_idx_props(m[g].free, |r: FreeRange| fit(r, needed, a) is Some);
    }
}

proof fn space_of_err(groups: Seq<BlockGroupItem>, extents: Seq<AllocV>, i: int, e: Fault)
    requires
        0 <= i <= groups.len(),
        space_of(groups.take(i), extents) == Err::<Seq<BgV>, Fault>(e),
    ensures
        space_of(groups, extents) == Err::<Seq<BgV>, Fault>(e),
    decreases groups.len() - i,
{
    if i == groups.len() {
        assert(groups.take(i) =~= groups);
    } else {
        assert(groups.take(i + 1).drop_last() =~= groups.take(i));
        space_of_err(groups, extents, i + 1, e);
    }
}

} // verus!
