//! Deleting and trimming the checksums of freed data extents.
//!
//! Neighbouring extents often share one checksum item. Freeing one of them
//! removes the item, shortens it at either end, or punches a hole into it.

use std::ops::Range;

use vstd::prelude::*;

use crate::bytes::{copy_bytes, copy_range};
use crate::device::ReadAt;
use crate::error::{Fault, LuksError, Outcome, Result};
use crate::fs::btrfs::blocks::BlockMap;
use crate::fs::btrfs::search::{collect_range, find_last, last_below, range_items, MAX_DEPTH};
use crate::fs::btrfs::tree::{
    items_of, Item, Key, LeafItem, CSUM_TREE_OBJECTID, EXTENT_CSUM_KEY, EXTENT_CSUM_OBJECTID,
};
use crate::fs::btrfs::volume::{Btrfs, FsV};
use crate::fs::btrfs::write::cow::agrees;
use crate::fs::btrfs::write::edit::{EditV, LeafEdit};
use crate::fs::btrfs::write::exclude::{merge_ranges, merged};
use crate::fs::btrfs::write::extent_tree::cap64;
use crate::fs::btrfs::write::interval_set::covers;
use crate::fs::btrfs::write::payload::pairs_of;
use crate::fs::btrfs::write::txn::data::{csum_changes, csum_ops};
use crate::fs::btrfs::write::txn::push_op;
use crate::fs::btrfs::write::unlink::{deletions, push_deletions};
use crate::fs::btrfs::write::workspace::{broken_off, ops_of, steps, OpV, StateV, TreeOp, Workspace};
use crate::sort::{sort_ranked, stable_sort, stable_sort_map, Ranked};

verus! {

/// The key of the checksum item for address `at`.
pub open spec fn csum_key(at: u64) -> Key {
    Key { objectid: EXTENT_CSUM_OBJECTID, item_type: EXTENT_CSUM_KEY, offset: at }
}

/// What is left of one interval once `f` was taken out.
pub open spec fn cut_one(p: (u64, u64), f: (u64, u64)) -> Seq<(u64, u64)> {
    let a = if p.0 > f.0 {
        p.0
    } else {
        f.0
    };
    let b = if p.1 < f.1 {
        p.1
    } else {
        f.1
    };
    if a < b {
        (if p.0 < a {
            seq![(p.0, a)]
        } else {
            Seq::empty()
        }) + (if b < p.1 {
            seq![(b, p.1)]
        } else {
            Seq::empty()
        })
    } else {
        seq![p]
    }
}

/// What is left of intervals once `f` was taken out.
pub open spec fn cut_from(s: Seq<(u64, u64)>, f: (u64, u64)) -> Seq<(u64, u64)>
    decreases s.len(),
{
    if s.len() == 0 {
        Seq::empty()
    } else {
        cut_from(s.drop_last(), f) + cut_one(s.last(), f)
    }
}

/// What is left of `[start, end)` once the `freed` intervals were taken out.
pub open spec fn survivors(start: u64, end: u64, freed: Seq<(u64, u64)>) -> Seq<(u64, u64)>
    decreases freed.len(),
{
    if start >= end {
        Seq::empty()
    } else if freed.len() == 0 {
        seq![(start, end)]
    } else {
        let s = survivors(start, end, freed.drop_last());
        if freed.last().0 >= freed.last().1 {
            s
        } else {
            cut_from(s, freed.last())
        }
    }
}

proof fn covers_concat(a: Seq<(u64, u64)>, b: Seq<(u64, u64)>, x: int)
    ensures
        covers(a + b, x) == (covers(a, x) || covers(b, x)),
{
    let c = a + b;
    if covers(a, x) {
        let i = choose|i: int| 0 <= i < a.len() && #[trigger] a[i].0 <= x < a[i].1;
        assert(c[i].0 <= x < c[i].1);
    }
    if covers(b, x) {
        let i = choose|i: int| 0 <= i < b.len() && #[trigger] b[i].0 <= x < b[i].1;
        assert(c[a.len() + i].0 <= x < c[a.len() + i].1);
    }
    if covers(c, x) {
        let i = choose|i: int| 0 <= i < c.len() && #[trigger] c[i].0 <= x < c[i].1;
        if i < a.len() {
            assert(a[i].0 <= x < a[i].1);
        } else {
            assert(b[i - a.len()].0 <= x < b[i - a.len()].1);
        }
    }
}

proof fn covers_single(p: (u64, u64), x: int)
    ensures
        covers(seq![p], x) == (p.0 <= x < p.1),
{
    if p.0 <= x < p.1 {
        assert(seq![p][0].0 <= x < seq![p][0].1);
    }
}

proof fn cut_one_means(p: (u64, u64), f: (u64, u64), x: int)
    ensures
        covers(cut_one(p, f), x) == (p.0 <= x < p.1 && !(f.0 <= x < f.1)),
{
    let a = if p.0 > f.0 {
        p.0
    } else {
        f.0
    };
    let b = if p.1 < f.1 {
        p.1
    } else {
        f.1
    };
    covers_single(p, x);
    covers_single((p.0, a), x);
    covers_single((b, p.1), x);
    let l = if p.0 < a {
        seq![(p.0, a)]
    } else {
        Seq::empty()
    };
    let r = if b < p.1 {
        seq![(b, p.1)]
    } else {
        Seq::empty()
    };
    covers_concat(l, r, x);
}

proof fn cut_from_means(s: Seq<(u64, u64)>, f: (u64, u64), x: int)
    ensures
        covers(cut_from(s, f), x) == (covers(s, x) && !(f.0 <= x < f.1)),
    decreases s.len(),
{
    if s.len() > 0 {
        cut_from_means(s.drop_last(), f, x);
        cut_one_means(s.last(), f, x);
        covers_concat(cut_from(s.drop_last(), f), cut_one(s.last(), f), x);
        covers_single(s.last(), x);
        covers_concat(s.drop_last(), seq![s.last()], x);
        assert(s.drop_last() + seq![s.last()] =~= s);
    }
}

/// An address survives if it lies in the item and in none of the freed
/// intervals.
pub proof fn survivors_mean(start: u64, end: u64, freed: Seq<(u64, u64)>, x: int)
    ensures
        covers(survivors(start, end, freed), x) == (start <= x < end && !covers(freed, x)),
    decreases freed.len(),
{
    if start >= end {
    } else if freed.len() == 0 {
        covers_single((start, end), x);
    } else {
        survivors_mean(start, end, freed.drop_last(), x);
        cut_from_means(survivors(start, end, freed.drop_last()), freed.last(), x);
        covers_single(freed.last(), x);
        covers_concat(freed.drop_last(), seq![freed.last()], x);
        assert(freed.drop_last() + seq![freed.last()] =~= freed);
    }
}

proof fn survivors_inside(start: u64, end: u64, freed: Seq<(u64, u64)>)
    ensures
        forall|i: int|
            0 <= i < survivors(start, end, freed).len() ==> start <= (#[trigger] survivors(
                start,
                end,
                freed,
            )[i]).0 < survivors(start, end, freed)[i].1 <= end,
    decreases freed.len(),
{
    if start < end && freed.len() > 0 {
        survivors_inside(start, end, freed.drop_last());
        let s = survivors(start, end, freed.drop_last());
        cut_from_inside(s, freed.last(), start, end);
    }
}

proof fn cut_from_inside(s: Seq<(u64, u64)>, f: (u64, u64), start: u64, end: u64)
    requires
        forall|i: int| 0 <= i < s.len() ==> start <= (#[trigger] s[i]).0 < s[i].1 <= end,
    ensures
        forall|i: int|
            0 <= i < cut_from(s, f).len() ==> start <= (#[trigger] cut_from(s, f)[i]).0 < cut_from(
                s,
                f,
            )[i].1 <= end,
    decreases s.len(),
{
    if s.len() > 0 {
        cut_from_inside(s.drop_last(), f, start, end);
        let a = cut_from(s.drop_last(), f);
        let b = cut_one(s.last(), f);
        assert(start <= s.last().0 < s.last().1 <= end);
        assert forall|i: int| 0 <= i < b.len() implies start <= (#[trigger] b[i]).0 < b[i].1
            <= end by {}
        assert forall|i: int| 0 <= i < cut_from(s, f).len() implies start <= (#[trigger] cut_from(
            s,
            f,
        )[i]).0 < cut_from(s, f)[i].1 <= end by {
            if i < a.len() {
                assert(cut_from(s, f)[i] == a[i]);
            } else {
                assert(cut_from(s, f)[i] == b[i - a.len()]);
            }
        }
    }
}

fn push_cut(v: &mut Vec<(u64, u64)>, p: (u64, u64), f: (u64, u64))
    ensures
        final(v)@ == old(v)@ + cut_one(p, f),
{
    let a: u64 = if p.0 > f.0 {
        p.0
    } else {
        f.0
    };
    let b: u64 = if p.1 < f.1 {
        p.1
    } else {
        f.1
    };
    if a < b {
        if p.0 < a {
            v.push((p.0, a));
        }
        if b < p.1 {
            v.push((b, p.1));
        }
    } else {
        v.push(p);
    }
    assert(v@ =~= old(v)@ + cut_one(p, f));
}

/// What is left of `[item_start, item_end)` once `freed_ranges` were taken out.
pub fn compute_surviving_intervals(
    item_start: u64,
    item_end: u64,
    freed_ranges: &[(u64, u64)],
) -> (r: Vec<(u64, u64)>)
    ensures
        r@ == survivors(item_start, item_end, freed_ranges@),
        forall|x: int|
            #[trigger] covers(r@, x) == (item_start <= x < item_end && !covers(freed_ranges@, x)),
{
    proof {
        assert forall|x: int|
            #[trigger] covers(survivors(item_start, item_end, freed_ranges@), x) == (item_start
                <= x < item_end && !covers(freed_ranges@, x)) by {
            survivors_mean(item_start, item_end, freed_ranges@, x);
        }
    }
    let mut now: Vec<(u64, u64)> = Vec::new();
    if item_start >= item_end {
        assert(now@ =~= Seq::<(u64, u64)>::empty());
        return now;
    }
    now.push((item_start, item_end));
    assert(now@ =~= seq![(item_start, item_end)]);
    assert(freed_ranges@.take(0) =~= Seq::<(u64, u64)>::empty());
    let n: usize = freed_ranges.len();
    let mut k: usize = 0;
    while k < n
        invariant
            k <= n,
            n == freed_ranges@.len(),
            item_start < item_end,
            now@ == survivors(item_start, item_end, freed_ranges@.take(k as int)),
        decreases n - k,
    {
        let f = freed_ranges[k];
        proof {
            assert(freed_ranges@.take(k + 1).drop_last() =~= freed_ranges@.take(k as int));
            assert(freed_ranges@.take(k + 1).last() == f);
        }
        if f.0 < f.1 {
            let m: usize = now.len();
            let mut next: Vec<(u64, u64)> = Vec::new();
            let mut i: usize = 0;
            assert(now@.take(0) =~= Seq::<(u64, u64)>::empty());
            while i < m
                invariant
                    i <= m,
                    m == now@.len(),
                    next@ == cut_from(now@.take(i as int), f),
                decreases m - i,
            {
                assert(now@.take(i + 1).drop_last() =~= now@.take(i as int));
                push_cut(&mut next, now[i], f);
                i += 1;
            }
            assert(now@.take(m as int) =~= now@);
            now = next;
        }
        k += 1;
    }
    assert(freed_ranges@.take(n as int) =~= freed_ranges@);
    now
}

/// Freed extents as address ranges; empty ones are left out.
pub open spec fn freed_ranges(spans: Seq<(u64, u64)>) -> Seq<Range<u64>>
    decreases spans.len(),
{
    if spans.len() == 0 {
        Seq::empty()
    } else {
        let s = freed_ranges(spans.drop_last());
        let x = spans.last();
        if x.1 > 0 {
            s.push(Range { start: x.0, end: cap64(x.0 + x.1) })
        } else {
            s
        }
    }
}

fn to_ranges(spans: &[(u64, u64)]) -> (r: Vec<Range<u64>>)
    ensures
        r@ == freed_ranges(spans@),
{
    let n: usize = spans.len();
    let mut v: Vec<Range<u64>> = Vec::new();
    let mut i: usize = 0;
    assert(spans@.take(0) =~= Seq::<(u64, u64)>::empty());
    while i < n
        invariant
            i <= n,
            n == spans@.len(),
            v@ == freed_ranges(spans@.take(i as int)),
        decreases n - i,
    {
        proof {
            assert(spans@.take(i + 1).drop_last() =~= spans@.take(i as int));
            assert(spans@.take(i + 1).last() == spans@[i as int]);
        }
        if spans[i].1 > 0 {
            v.push(spans[i].0..spans[i].0.saturating_add(spans[i].1));
        }
        i += 1;
    }
    assert(spans@.take(n as int) =~= spans@);
    v
}

/// Ranges as pairs.
pub open spec fn range_pairs(s: Seq<Range<u64>>) -> Seq<(u64, u64)> {
    s.map_values(|r: Range<u64>| (r.start, r.end))
}

fn to_pairs(s: &Vec<Range<u64>>) -> (r: Vec<(u64, u64)>)
    ensures
        r@ == range_pairs(s@),
{
    let n: usize = s.len();
    let mut v: Vec<(u64, u64)> = Vec::new();
    let mut i: usize = 0;
    while i < n
        invariant
            i <= n,
            n == s@.len(),
            v@ =~= range_pairs(s@.take(i as int)),
        decreases n - i,
    {
        v.push((s[i].start, s[i].end));
        i += 1;
    }
    assert(s@.take(n as int) =~= s@);
    v
}

/// The first address behind a checksum item.
pub open spec fn csum_item_end(it: Item, sector: u32, width: nat) -> u64 {
    cap64(it.key.offset + it.data.len() as int / width as int * sector)
}

fn item_end(it: &LeafItem, sector: u32, width: usize) -> (r: u64)
    requires
        width > 0,
    ensures
        r == csum_item_end(it@, sector, width as nat),
        r >= it.key.offset,
{
    let n: usize = it.data.len() / width;
    proof {
        vstd::arithmetic::mul::lemma_mul_nonnegative(n as int, sector as int);
    }
    match (n as u64).checked_mul(sector as u64) {
        Some(b) => it.key.offset.saturating_add(b),
        None => u64::MAX,
    }
}

/// `items` that reach past `start`.
pub open spec fn reaching(items: Seq<Item>, start: u64, sector: u32, width: nat) -> Seq<Item>
    decreases items.len(),
{
    if items.len() == 0 {
        Seq::empty()
    } else if csum_item_end(items.last(), sector, width) > start {
        reaching(items.drop_last(), start, sector, width).push(items.last())
    } else {
        reaching(items.drop_last(), start, sector, width)
    }
}

/// The checksum items that meet the range `f`: those that begin in it, and the
/// last one that begins before it if it reaches into it.
pub open spec fn csums_meeting(fs: FsV, root: u64, f: (u64, u64), sector: u32, width: nat) -> Outcome<
    Seq<Item>,
> {
    if f.0 >= f.1 {
        Ok(Seq::empty())
    } else {
        match last_below(fs, root, csum_key(0), csum_key(f.0), MAX_DEPTH) {
            Err(e) => Err(e),
            Ok(k) => {
                let lo = match k {
                    Some(k) => k,
                    None => csum_key(f.0),
                };
                match range_items(fs, Map::empty(), root, lo, csum_key((f.1 - 1) as u64)) {
                    Err(e) => Err(e),
                    Ok(items) => Ok(reaching(items, f.0, sector, width)),
                }
            },
        }
    }
}

/// The checksum items that meet one of the ranges.
pub open spec fn csums_touched(
    fs: FsV,
    root: u64,
    freed: Seq<(u64, u64)>,
    sector: u32,
    width: nat,
) -> Outcome<Seq<Item>>
    decreases freed.len(),
{
    if freed.len() == 0 {
        Ok(Seq::empty())
    } else {
        match csums_touched(fs, root, freed.drop_last(), sector, width) {
            Err(e) => Err(e),
            Ok(s) => match csums_meeting(fs, root, freed.last(), sector, width) {
                Err(e) => Err(e),
                Ok(t) => Ok(s + t),
            },
        }
    }
}

proof fn csums_touched_err(
    fs: FsV,
    root: u64,
    freed: Seq<(u64, u64)>,
    sector: u32,
    width: nat,
    n: int,
)
    requires
        0 <= n <= freed.len(),
        csums_touched(fs, root, freed.take(n), sector, width) is Err,
    ensures
        csums_touched(fs, root, freed, sector, width) == csums_touched(
            fs,
            root,
            freed.take(n),
            sector,
            width,
        ),
    decreases freed.len() - n,
{
    if n == freed.len() {
        assert(freed.take(n) =~= freed);
    } else {
        assert(freed.take(n + 1).drop_last() =~= freed.take(n));
        csums_touched_err(fs, root, freed, sector, width, n + 1);
    }
}

impl Ranked for LeafItem {
    open spec fn rank(&self) -> int {
        self.key.ord()
    }

    fn rank_le(&self, other: &Self) -> (r: bool) {
        !other.key.before(&self.key)
    }
}

impl Ranked for Item {
    open spec fn rank(&self) -> int {
        self.key.ord()
    }

    fn rank_le(&self, other: &Self) -> (r: bool) {
        !other.key.before(&self.key)
    }
}

/// Sorted items, each key once; the last item with a key counts.
pub open spec fn one_each(s: Seq<Item>) -> Seq<Item>
    decreases s.len(),
{
    if s.len() <= 1 {
        s
    } else if s.last().key == s[s.len() - 2].key {
        one_each(s.drop_last()).drop_last().push(s.last())
    } else {
        one_each(s.drop_last()).push(s.last())
    }
}

/// The checksums in an item for the piece `p` of its range.
pub open spec fn csum_slice(it: Item, p: (u64, u64), sector: u32, width: nat) -> Seq<u8> {
    it.data.subrange(
        (p.0 - it.key.offset) / sector as int * width,
        (p.1 - it.key.offset) / sector as int * width,
    )
}

/// What trimming does to the checksum tree.
#[verifier::ext_equal]
pub struct TrimV {
    pub deletes: Seq<Key>,
    /// Items that keep their key and get a new payload.
    pub cuts: Seq<(Key, Seq<u8>)>,
    /// New items, by address.
    pub inserts: Seq<(u64, Seq<u8>)>,
}

/// The new items for all pieces of `it` but the first.
pub open spec fn later_pieces(it: Item, ps: Seq<(u64, u64)>, sector: u32, width: nat) -> Seq<
    (u64, Seq<u8>),
> {
    Seq::new(
        (ps.len() - 1) as nat,
        |i: int| (ps[i + 1].0, csum_slice(it, ps[i + 1], sector, width)),
    )
}

/// Trimming of one item, on top of `t`.
pub open spec fn trim_item(t: TrimV, it: Item, freed: Seq<(u64, u64)>, sector: u32, width: nat) -> TrimV {
    let ps = survivors(it.key.offset, csum_item_end(it, sector, width), freed);
    if ps.len() == 0 {
        TrimV { deletes: t.deletes.push(it.key), ..t }
    } else {
        let first = csum_slice(it, ps[0], sector, width);
        let u = if ps[0].0 == it.key.offset {
            if first.len() < it.data.len() {
                TrimV { cuts: t.cuts.push((it.key, first)), ..t }
            } else {
                t
            }
        } else {
            TrimV {
                deletes: t.deletes.push(it.key),
                inserts: t.inserts.push((ps[0].0, first)),
                ..t
            }
        };
        TrimV { inserts: u.inserts + later_pieces(it, ps, sector, width), ..u }
    }
}

/// Trimming of `items`, in order.
pub open spec fn trim_all(items: Seq<Item>, freed: Seq<(u64, u64)>, sector: u32, width: nat) -> TrimV
    decreases items.len(),
{
    if items.len() == 0 {
        TrimV { deletes: Seq::empty(), cuts: Seq::empty(), inserts: Seq::empty() }
    } else {
        trim_item(
            trim_all(items.drop_last(), freed, sector, width),
            items.last(),
            freed,
            sector,
            width,
        )
    }
}

/// The changes of the checksum tree for a trimming: deletions, then cuts, then
/// new items.
pub open spec fn trim_ops(t: TrimV) -> Seq<OpV> {
    deletions(t.deletes) + cut_ops(t.cuts) + csum_ops(t.inserts)
}

/// New payloads for items.
pub open spec fn cut_ops(cuts: Seq<(Key, Seq<u8>)>) -> Seq<OpV> {
    cuts.map_values(
        |c: (Key, Seq<u8>)|
            OpV::Edit {
                key: c.0,
                edit: EditV::Put {
                    data: c.1,
                    missing: "csum item to truncate not found in leaf"@,
                },
            },
    )
}

/// The changes of the checksum tree at `root` that freeing `spans` calls for,
/// where its items can be read.
pub open spec fn trim_plan(fs: FsV, root: u64, spans: Seq<(u64, u64)>) -> Seq<OpV> {
    let sector = fs.sb.sector_size;
    let width = fs.sb.csum_type.width();
    let freed = range_pairs(merged(freed_ranges(spans)));
    let found = csums_touched(fs, root, freed, sector, width)->Ok_0;
    trim_ops(trim_all(one_each(stable_sort(found)), freed, sector, width))
}

/// What freeing `spans` does to the checksum tree at `root`: the state, and
/// the tree's new root if it changed.
pub open spec fn csums_trimmed(
    fs: FsV,
    generation: u64,
    s: StateV,
    root: (u64, u8),
    spans: Seq<(u64, u64)>,
) -> Outcome<(StateV, Option<(u64, u8)>)> {
    let sector = fs.sb.sector_size;
    let width = fs.sb.csum_type.width();
    let freed = range_pairs(merged(freed_ranges(spans)));
    if freed_ranges(spans).len() == 0 {
        Ok((s, None))
    } else if sector == 0 {
        Err(Fault::CorruptFs("invalid sector_size or csum_size"@))
    } else {
        match csums_touched(fs, root.0, freed, sector, width) {
            Err(e) => Err(e),
            Ok(found) => {
                let t = trim_all(one_each(stable_sort(found)), freed, sector, width);
                if trim_ops(t).len() == 0 {
                    Ok((s, None))
                } else {
                    match steps(fs, generation, CSUM_TREE_OBJECTID, s, root, trim_ops(t)) {
                        Err(e) => Err(e),
                        Ok((u, r)) => Ok((u, Some(r))),
                    }
                }
            },
        }
    }
}

/// What freeing `spans` leaves of `s` where a change to the checksum tree at
/// `root` fails.
pub open spec fn csums_half_trimmed(
    fs: FsV,
    generation: u64,
    s: StateV,
    root: (u64, u8),
    spans: Seq<(u64, u64)>,
    t: StateV,
) -> bool {
    let sector = fs.sb.sector_size;
    let width = fs.sb.csum_type.width();
    let freed = range_pairs(merged(freed_ranges(spans)));
    ||| t == s
    ||| csums_touched(fs, root.0, freed, sector, width) matches Ok(found) && broken_off(
        fs,
        generation,
        CSUM_TREE_OBJECTID,
        s,
        root,
        trim_ops(trim_all(one_each(stable_sort(found)), freed, sector, width)),
        t,
    )
}

/// A sector that survives keeps its checksum: where item and piece begin on
/// sector boundaries, the checksum of the sector at `x` is the same bytes in
/// the item and in the new item for the piece.
pub proof fn surviving_sector_keeps_checksum(
    it: Item,
    p: (u64, u64),
    sector: u32,
    width: nat,
    x: u64,
    j: int,
)
    requires
        sector > 0,
        width > 0,
        it.key.offset <= p.0 <= x,
        x + sector <= p.1,
        (p.0 - it.key.offset) % sector as int == 0,
        (x - it.key.offset) % sector as int == 0,
        p.1 <= it.key.offset + it.data.len() as int / width as int * sector,
        0 <= j < width,
    ensures
        (x - p.0) / sector as int * width + j < csum_slice(it, p, sector, width).len(),
        csum_slice(it, p, sector, width)[(x - p.0) / sector as int * width + j]
            == it.data[(x - it.key.offset) / sector as int * width + j],
{
    let s = sector as int;
    let w = width as int;
    let o = it.key.offset as int;
    let a = (p.0 - o) / s;
    let b = (x - o) / s;
    let c = (p.1 - o) / s;
    let n = it.data.len() as int / w;
    vstd::arithmetic::div_mod::lemma_fundamental_div_mod(p.0 - o, s);
    vstd::arithmetic::div_mod::lemma_fundamental_div_mod(x - o, s);
    vstd::arithmetic::div_mod::lemma_fundamental_div_mod(p.1 - o, s);
    vstd::arithmetic::div_mod::lemma_mod_bound(p.1 - o, s);
    vstd::arithmetic::div_mod::lemma_fundamental_div_mod(it.data.len() as int, w);
    vstd::arithmetic::div_mod::lemma_mod_bound(it.data.len() as int, w);
    assert(x - p.0 == (b - a) * s) by (nonlinear_arith)
        requires
            p.0 - o == s * a,
            x - o == s * b,
    ;
    assert((x - p.0) / s == b - a) by {
        vstd::arithmetic::div_mod::lemma_div_multiples_vanish(b - a, s);
        vstd::arithmetic::mul::lemma_mul_is_commutative(b - a, s);
    }
    assert(b + 1 <= c && 0 <= a <= b) by (nonlinear_arith)
        requires
            p.0 - o == s * a,
            x - o == s * b,
            p.1 - o == s * c + (p.1 - o) % s,
            0 <= (p.1 - o) % s < s,
            x + s <= p.1,
            o <= p.0 <= x,
            s > 0,
    ;
    assert(c <= n) by (nonlinear_arith)
        requires
            p.1 - o == s * c + (p.1 - o) % s,
            0 <= (p.1 - o) % s,
            p.1 - o <= n * s,
            s > 0,
    ;
    assert(a * w >= 0 && (b - a) * w + a * w == b * w && b * w + w <= c * w && c * w <= n * w)
        by (nonlinear_arith)
        requires
            0 <= a <= b,
            b + 1 <= c <= n,
            w > 0,
    ;
    assert(n * w <= it.data.len()) by (nonlinear_arith)
        requires
            it.data.len() == w * n + it.data.len() as int % w,
            0 <= it.data.len() as int % w,
    ;
}

fn keep_reaching(items: Vec<LeafItem>, start: u64, sector: u32, width: usize) -> (r: Vec<LeafItem>)
    requires
        width > 0,
    ensures
        items_of(r@) == reaching(items_of(items@), start, sector, width as nat),
{
    let ghost all = items_of(items@);
    let n: usize = items.len();
    let mut v: Vec<LeafItem> = Vec::new();
    let mut i: usize = 0;
    assert(all.take(0) =~= Seq::<Item>::empty());
    assert(items_of(v@) =~= Seq::<Item>::empty());
    while i < n
        invariant
            i <= n,
            n == items@.len(),
            width > 0,
            all == items_of(items@),
            items_of(v@) == reaching(all.take(i as int), start, sector, width as nat),
        decreases n - i,
    {
        proof {
            assert(all.take(i + 1).drop_last() =~= all.take(i as int));
            assert(all.take(i + 1).last() == items@[i as int]@);
        }
        if item_end(&items[i], sector, width) > start {
            let ghost before = v@;
            let x = items[i].clone();
            v.push(x);
            assert(items_of(v@) =~= items_of(before).push(x@));
        }
        i += 1;
    }
    assert(all.take(n as int) =~= all);
    v
}

fn find_meeting<D: ReadAt>(fs: &Btrfs<D>, root: u64, f: (u64, u64), sector: u32, width: usize) -> (r:
    Result<Vec<LeafItem>>)
    requires
        width > 0,
    ensures
        agrees(
            fs.steady(),
            r,
            csums_meeting(fs@, root, f, sector, width as nat),
            |v: Vec<LeafItem>| items_of(v@),
        ),
{
    if f.0 >= f.1 {
        let v: Vec<LeafItem> = Vec::new();
        assert(items_of(v@) =~= Seq::<Item>::empty());
        return Ok(v);
    }
    let bottom = Key::new(EXTENT_CSUM_OBJECTID, EXTENT_CSUM_KEY, 0);
    let at = Key::new(EXTENT_CSUM_OBJECTID, EXTENT_CSUM_KEY, f.0);
    let lo = match find_last(fs, root, &bottom, &at, MAX_DEPTH)? {
        Some(k) => k,
        None => at,
    };
    let none = BlockMap::new();
    let hi = Key::new(EXTENT_CSUM_OBJECTID, EXTENT_CSUM_KEY, f.1 - 1);
    let items = collect_range(fs, &none, root, &lo, &hi)?;
    Ok(keep_reaching(items, f.0, sector, width))
}

fn find_touched<D: ReadAt>(
    fs: &Btrfs<D>,
    root: u64,
    freed: &Vec<(u64, u64)>,
    sector: u32,
    width: usize,
) -> (r: Result<Vec<LeafItem>>)
    requires
        width > 0,
    ensures
        agrees(
            fs.steady(),
            r,
            csums_touched(fs@, root, freed@, sector, width as nat),
            |v: Vec<LeafItem>| items_of(v@),
        ),
{
    let n: usize = freed.len();
    let mut v: Vec<LeafItem> = Vec::new();
    let mut i: usize = 0;
    assert(freed@.take(0) =~= Seq::<(u64, u64)>::empty());
    assert(items_of(v@) =~= Seq::<Item>::empty());
    while i < n
        invariant
            i <= n,
            n == freed@.len(),
            width > 0,
            csums_touched(fs@, root, freed@.take(i as int), sector, width as nat) == Ok::<
                Seq<Item>,
                Fault,
            >(items_of(v@)),
        decreases n - i,
    {
        proof {
            assert(freed@.take(i + 1).drop_last() =~= freed@.take(i as int));
            assert(freed@.take(i + 1).last() == freed@[i as int]);
            if csums_touched(fs@, root, freed@.take(i + 1), sector, width as nat) is Err {
                csums_touched_err(fs@, root, freed@, sector, width as nat, i + 1);
            }
        }
        let mut part = find_meeting(fs, root, freed[i], sector, width)?;
        let ghost a = v@;
        let ghost b = part@;
        v.append(&mut part);
        assert(items_of(v@) =~= items_of(a) + items_of(b));
        i += 1;
    }
    assert(freed@.take(n as int) =~= freed@);
    Ok(v)
}

fn keep_one_each(v: &Vec<LeafItem>) -> (r: Vec<LeafItem>)
    ensures
        items_of(r@) == one_each(items_of(v@)),
{
    let ghost all = items_of(v@);
    let n: usize = v.len();
    let mut out: Vec<LeafItem> = Vec::new();
    let mut i: usize = 0;
    assert(all.take(0) =~= Seq::<Item>::empty());
    assert(items_of(out@) =~= Seq::<Item>::empty());
    while i < n
        invariant
            i <= n,
            n == v@.len(),
            all == items_of(v@),
            items_of(out@) == one_each(all.take(i as int)),
            i > 0 ==> out@.len() > 0,
        decreases n - i,
    {
        let ghost before = out@;
        proof {
            let t = all.take(i + 1);
            assert(t.drop_last() =~= all.take(i as int));
            assert(t.last() == v@[i as int]@);
            if i > 0 {
                assert(t[t.len() - 2] == v@[i - 1]@);
            } else {
                assert(t =~= Seq::<Item>::empty().push(v@[0]@));
            }
        }
        let x = v[i].clone();
        if i > 0 && v[i].key == v[i - 1].key {
            let _ = out.pop();
            assert(items_of(out@) =~= items_of(before).drop_last());
        }
        let ghost mid = out@;
        out.push(x);
        assert(items_of(out@) =~= items_of(mid).push(x@));
        i += 1;
    }
    assert(all.take(n as int) =~= all);
    out
}

/// What trimming does to the checksum tree.
struct Trim {
    deletes: Vec<Key>,
    cuts: Vec<(Key, Vec<u8>)>,
    inserts: Vec<(u64, Vec<u8>)>,
}

/// The views of cuts.
spec fn cuts_of(s: Seq<(Key, Vec<u8>)>) -> Seq<(Key, Seq<u8>)> {
    s.map_values(|c: (Key, Vec<u8>)| (c.0, c.1@))
}

impl View for Trim {
    type V = TrimV;

    closed spec fn view(&self) -> TrimV {
        TrimV {
            deletes: self.deletes@,
            cuts: cuts_of(self.cuts@),
            inserts: pairs_of(self.inserts@),
        }
    }
}

proof fn slice_bounds(it: Item, p: (u64, u64), sector: u32, width: nat)
    requires
        sector > 0,
        width > 0,
        it.key.offset <= p.0 < p.1 <= csum_item_end(it, sector, width),
    ensures
        0 <= (p.0 - it.key.offset) / sector as int * width <= (p.1 - it.key.offset) / sector as int
            * width <= it.data.len(),
{
    let s = sector as int;
    let w = width as int;
    let o = it.key.offset as int;
    let n = it.data.len() as int / w;
    let a = (p.0 - o) / s;
    let c = (p.1 - o) / s;
    vstd::arithmetic::div_mod::lemma_fundamental_div_mod(p.0 - o, s);
    vstd::arithmetic::div_mod::lemma_fundamental_div_mod(p.1 - o, s);
    vstd::arithmetic::div_mod::lemma_mod_bound(p.0 - o, s);
    vstd::arithmetic::div_mod::lemma_mod_bound(p.1 - o, s);
    vstd::arithmetic::div_mod::lemma_fundamental_div_mod(it.data.len() as int, w);
    vstd::arithmetic::div_mod::lemma_mod_bound(it.data.len() as int, w);
    vstd::arithmetic::div_mod::lemma_div_is_ordered(p.0 - o, p.1 - o, s);
    vstd::arithmetic::div_mod::lemma_div_pos_is_pos(p.0 - o, s);
    assert(c <= n) by (nonlinear_arith)
        requires
            p.1 - o == s * c + (p.1 - o) % s,
            0 <= (p.1 - o) % s,
            p.1 - o <= n * s,
            s > 0,
    ;
    assert(0 <= a * w <= c * w <= n * w) by (nonlinear_arith)
        requires
            0 <= a <= c <= n,
            w > 0,
    ;
    assert(n * w <= it.data.len()) by (nonlinear_arith)
        requires
            it.data.len() == w * n + it.data.len() as int % w,
            0 <= it.data.len() as int % w,
    ;
}

fn slice_item(it: &LeafItem, p: (u64, u64), sector: u32, width: usize) -> (r: Vec<u8>)
    requires
        sector > 0,
        width > 0,
        it.key.offset <= p.0 < p.1 <= csum_item_end(it@, sector, width as nat),
    ensures
        r@ == csum_slice(it@, p, sector, width as nat),
{
    proof {
        slice_bounds(it@, p, sector, width as nat);
        vstd::arithmetic::div_mod::lemma_div_pos_is_pos(p.0 - it.key.offset, sector as int);
        vstd::arithmetic::div_mod::lemma_div_pos_is_pos(p.1 - it.key.offset, sector as int);
        let a = (p.0 - it.key.offset) / sector as int;
        let c = (p.1 - it.key.offset) / sector as int;
        assert(a <= a * width && c <= c * width) by (nonlinear_arith)
            requires
                width >= 1,
                0 <= a,
                0 <= c,
        ;
    }
    let n: usize = it.data.len();
    let a: u64 = (p.0 - it.key.offset) / sector as u64;
    let c: u64 = (p.1 - it.key.offset) / sector as u64;
    assert(a * width <= n && c * width <= n);
    copy_range(it.data.as_slice(), a as usize * width, c as usize * width)
}

fn trim_one(t: &mut Trim, it: &LeafItem, freed: &Vec<(u64, u64)>, sector: u32, width: usize)
    requires
        sector > 0,
        width > 0,
    ensures
        final(t)@ == trim_item(old(t)@, it@, freed@, sector, width as nat),
{
    let ghost t0 = t@;
    let start: u64 = it.key.offset;
    let end: u64 = item_end(it, sector, width);
    let ps = compute_surviving_intervals(start, end, freed.as_slice());
    proof {
        survivors_inside(start, end, freed@);
    }
    let n: usize = ps.len();
    if n == 0 {
        t.deletes.push(it.key);
        assert(t@ =~= trim_item(t0, it@, freed@, sector, width as nat));
        return;
    }
    let first = slice_item(it, ps[0], sector, width);
    let ghost first_v = first@;
    if ps[0].0 == start {
        if first.len() < it.data.len() {
            let ghost before = t.cuts@;
            t.cuts.push((it.key, first));
            assert(cuts_of(t.cuts@) =~= cuts_of(before).push((it.key, first_v)));
        }
    } else {
        let ghost before = t.inserts@;
        t.deletes.push(it.key);
        t.inserts.push((ps[0].0, first));
        assert(pairs_of(t.inserts@) =~= pairs_of(before).push((ps@[0].0, first_v)));
    }
    let ghost u = t@;
    let ghost more = later_pieces(it@, ps@, sector, width as nat);
    let mut i: usize = 1;
    assert(pairs_of(t.inserts@) =~= u.inserts + more.take(0));
    while i < n
        invariant
            1 <= i <= n,
            n == ps@.len(),
            sector > 0,
            width > 0,
            forall|k: int|
                0 <= k < n ==> start <= (#[trigger] ps@[k]).0 < ps@[k].1 <= end,
            start == it.key.offset,
            end == csum_item_end(it@, sector, width as nat),
            more == later_pieces(it@, ps@, sector, width as nat),
            pairs_of(t.inserts@) == u.inserts + more.take(i - 1),
            t@ == (TrimV { inserts: t@.inserts, ..u }),
        decreases n - i,
    {
        let p = ps[i];
        let data = slice_item(it, p, sector, width);
        let ghost before = t.inserts@;
        assert(more[i - 1] == (p.0, data@));
        t.inserts.push((p.0, data));
        assert(pairs_of(t.inserts@) =~= pairs_of(before).push((p.0, data@)));
        assert(pairs_of(t.inserts@) =~= u.inserts + more.take(i as int));
        i += 1;
    }
    assert(more.take(n - 1) =~= more);
    assert(t@ =~= trim_item(t0, it@, freed@, sector, width as nat));
}

fn trim_items(items: &Vec<LeafItem>, freed: &Vec<(u64, u64)>, sector: u32, width: usize) -> (t: Trim)
    requires
        sector > 0,
        width > 0,
    ensures
        t@ == trim_all(items_of(items@), freed@, sector, width as nat),
{
    let ghost all = items_of(items@);
    let n: usize = items.len();
    let mut t = Trim { deletes: Vec::new(), cuts: Vec::new(), inserts: Vec::new() };
    let mut i: usize = 0;
    assert(all.take(0) =~= Seq::<Item>::empty());
    assert(t@ =~= trim_all(all.take(0), freed@, sector, width as nat));
    while i < n
        invariant
            i <= n,
            n == items@.len(),
            sector > 0,
            width > 0,
            all == items_of(items@),
            t@ == trim_all(all.take(i as int), freed@, sector, width as nat),
        decreases n - i,
    {
        proof {
            assert(all.take(i + 1).drop_last() =~= all.take(i as int));
            assert(all.take(i + 1).last() == items@[i as int]@);
        }
        trim_one(&mut t, &items[i], freed, sector, width);
        i += 1;
    }
    assert(all.take(n as int) =~= all);
    t
}

fn trim_changes(t: Trim) -> (r: Vec<TreeOp>)
    ensures
        ops_of(r@) == trim_ops(t@),
{
    let ghost m = t@;
    let mut v: Vec<TreeOp> = Vec::new();
    assert(ops_of(v@) =~= Seq::<OpV>::empty());
    push_deletions(&mut v, &t.deletes);
    let ghost head = deletions(m.deletes);
    assert(ops_of(v@) =~= head);
    let n: usize = t.cuts.len();
    let mut i: usize = 0;
    assert(ops_of(v@) =~= head + cut_ops(m.cuts.take(0)));
    while i < n
        invariant
            i <= n,
            n == t.cuts@.len(),
            m.cuts == cuts_of(t.cuts@),
            ops_of(v@) == head + cut_ops(m.cuts.take(i as int)),
        decreases n - i,
    {
        let data = copy_bytes(&t.cuts[i].1);
        assert(m.cuts[i as int] == (t.cuts@[i as int].0, data@));
        push_op(
            &mut v,
            TreeOp::Edit {
                key: t.cuts[i].0,
                edit: LeafEdit::Put { data, missing: "csum item to truncate not found in leaf" },
            },
        );
        i += 1;
        assert(ops_of(v@) =~= head + cut_ops(m.cuts.take(i as int)));
    }
    assert(m.cuts.take(n as int) =~= m.cuts);
    let mut inserts = csum_changes(t.inserts);
    let ghost a = v@;
    let ghost b = inserts@;
    v.append(&mut inserts);
    assert(ops_of(v@) =~= ops_of(a) + ops_of(b));
    assert(ops_of(v@) =~= trim_ops(m));
    v
}

/// Delete or trim the checksums of the freed extents in the checksum tree at
/// `root`; returns the tree's new root if it changed.
pub fn delete_extent_csums<D: ReadAt>(
    fs: &Btrfs<D>,
    w: &mut Workspace,
    root: (u64, u8),
    data_extents_to_free: &[(u64, u64)],
    new_generation: u64,
) -> (r: Result<Option<(u64, u8)>>)
    ensures
        agrees(
            fs.steady(),
            r,
            csums_trimmed(fs@, new_generation, old(w)@, root, data_extents_to_free@),
            |x: Option<(u64, u8)>| (final(w)@, x),
        ),
        r is Err ==> csums_half_trimmed(
            fs@,
            new_generation,
            old(w)@,
            root,
            data_extents_to_free@,
            final(w)@,
        ),
{
    let ranges = to_ranges(data_extents_to_free);
    if ranges.len() == 0 {
        return Ok(None);
    }
    let sb = fs.superblock();
    let sector: u32 = sb.sector_size;
    let width: usize = sb.csum_type.size();
    if sector == 0 {
        return Err(LuksError::CorruptFs("invalid sector_size or csum_size"));
    }
    let freed = to_pairs(&merge_ranges(ranges));
    let mut found = find_touched(fs, root.0, &freed, sector, width)?;
    proof {
        stable_sort_map(found@, |it: LeafItem| it@);
    }
    sort_ranked(&mut found);
    let items = keep_one_each(&found);
    let t = trim_items(&items, &freed, sector, width);
    let ops = trim_changes(t);
    assert(ops_of(ops@).len() == ops@.len());
    if ops.len() == 0 {
        return Ok(None);
    }
    let to = w.apply_all(fs, new_generation, CSUM_TREE_OBJECTID, root, &ops)?;
    Ok(Some(to))
}

} // verus!
