//! Ranges of logical addresses: merging, cutting and aligning them.

use vstd::prelude::*;

use crate::fs::btrfs::write::extent_tree::cap64;
use crate::sort::{sort_ranked, stable_sort, Ranked};

verus! {

/// A contiguous range of bytes in logical address space.
#[derive(Debug, Clone, Copy, PartialEq, Eq, Structural)]
pub struct FreeRange {
    pub start: u64,
    pub length: u64,
}

impl FreeRange {
    /// The first address behind the range.
    pub open spec fn spec_end(self) -> u64 {
        cap64(self.start + self.length)
    }

    /// Whether `x` lies in the range.
    pub open spec fn holds(self, x: int) -> bool {
        self.start <= x < self.spec_end()
    }

    /// The first address behind the range.
    pub fn end(&self) -> (r: u64)
        ensures
            r == self.spec_end(),
    {
        self.start.saturating_add(self.length)
    }
}

impl Ranked for FreeRange {
    open spec fn rank(&self) -> int {
        self.start as int
    }

    fn rank_le(&self, other: &Self) -> (r: bool) {
        self.start <= other.start
    }
}

/// Bytes of all ranges.
pub open spec fn range_sum(s: Seq<FreeRange>) -> int
    decreases s.len(),
{
    if s.len() == 0 {
        0
    } else {
        range_sum(s.drop_last()) + s.last().length
    }
}

/// Sums are not negative.
pub proof fn range_sum_bound(s: Seq<FreeRange>)
    ensures
        0 <= range_sum(s) <= s.len() * 0xFFFF_FFFF_FFFF_FFFF,
    decreases s.len(),
{
    if s.len() > 0 {
        range_sum_bound(s.drop_last());
    }
}

/// Bytes of all ranges, exactly.
pub fn sum_exact(v: &Vec<FreeRange>) -> (r: u128)
    ensures
        r == range_sum(v@),
{
    let n: usize = v.len();
    let mut sum: u128 = 0;
    let mut i: usize = 0;
    assert(v@.take(0) =~= Seq::<FreeRange>::empty());
    while i < n
        invariant
            i <= n,
            n == v@.len(),
            sum == range_sum(v@.take(i as int)),
            sum <= i * 0xFFFF_FFFF_FFFF_FFFF,
        decreases n - i,
    {
        proof {
            assert(v@.take(i + 1).drop_last() =~= v@.take(i as int));
            assert((i + 1) * 0xFFFF_FFFF_FFFF_FFFF <= 0xFFFF_FFFF_FFFF_FFFF
                * 0xFFFF_FFFF_FFFF_FFFF + 0xFFFF_FFFF_FFFF_FFFF);
        }
        sum = sum + v[i].length as u128;
        i += 1;
    }
    assert(v@.take(n as int) =~= v@);
    sum
}

/// Bytes of all ranges, capped at `u64::MAX`.
pub fn sum_ranges(v: &Vec<FreeRange>) -> (r: u64)
    ensures
        r == cap64(range_sum(v@)),
{
    let s: u128 = sum_exact(v);
    if s > 0xFFFF_FFFF_FFFF_FFFF {
        u64::MAX
    } else {
        s as u64
    }
}

/// The lowest multiple of the power of two `a` that is not below `start`.
///
/// `None` where `a` is zero or the address space ends first.
pub open spec fn align_up(start: u64, a: u64) -> Option<u64> {
    if a == 0 || start + (a - 1) > u64::MAX {
        None
    } else {
        Some(((start + (a - 1)) as u64) & !((a - 1) as u64))
    }
}

/// Aligning moves up by less than the alignment.
pub proof fn align_up_bounds(start: u64, a: u64)
    ensures
        align_up(start, a) matches Some(x) ==> start <= x < start + a,
{
    if a != 0 && start + (a - 1) <= u64::MAX {
        let m: u64 = (a - 1) as u64;
        let y: u64 = (start + (a - 1)) as u64;
        assert(y & !m <= y && y - (y & !m) <= m) by (bit_vector);
    }
}

/// For a power of two the aligned address is a multiple of it.
pub proof fn align_up_multiple(start: u64, a: u64, k: u64)
    requires
        k < 64,
        a == 1u64 << k,
    ensures
        align_up(start, a) matches Some(x) ==> x & ((a - 1) as u64) == 0,
{
    if a != 0 && start + (a - 1) <= u64::MAX {
        let m: u64 = (a - 1) as u64;
        let y: u64 = (start + (a - 1)) as u64;
        assert((y & !m) & m == 0) by (bit_vector);
    }
}

/// Align `start` up to `a`.
pub fn align_up_to(start: u64, a: u64) -> (r: Option<u64>)
    ensures
        r == align_up(start, a),
{
    if a == 0 {
        return None;
    }
    let m: u64 = a - 1;
    if start > u64::MAX - m {
        return None;
    }
    Some((start + m) & !m)
}

/// The range from `a` up to `b`, if there is one.
pub open spec fn gap(a: u64, b: u64) -> Seq<FreeRange> {
    if a < b {
        seq![FreeRange { start: a, length: (b - a) as u64 }]
    } else {
        Seq::empty()
    }
}

/// Append the range from `a` up to `b`, if there is one.
pub fn push_gap(v: &mut Vec<FreeRange>, a: u64, b: u64)
    ensures
        final(v)@ == old(v)@ + gap(a, b),
{
    if a < b {
        v.push(FreeRange { start: a, length: b - a });
    }
    assert(v@ =~= old(v)@ + gap(a, b));
}

/// The free ranges once `[a, b)` was taken out of range `i`.
pub open spec fn carve(free: Seq<FreeRange>, i: int, a: u64, b: u64) -> Seq<FreeRange> {
    free.take(i) + gap(free[i].start, a) + gap(b, free[i].spec_end()) + free.skip(i + 1)
}

/// Take `[a, b)` out of range `i`.
pub fn carve_out(v: &Vec<FreeRange>, i: usize, a: u64, b: u64) -> (r: Vec<FreeRange>)
    requires
        i < v@.len(),
    ensures
        r@ == carve(v@, i as int, a, b),
{
    let n: usize = v.len();
    let mut r: Vec<FreeRange> = Vec::new();
    let mut k: usize = 0;
    while k < i
        invariant
            k <= i,
            i < n,
            n == v@.len(),
            r@ == v@.take(k as int),
        decreases i - k,
    {
        r.push(v[k]);
        k += 1;
        assert(r@ =~= v@.take(k as int));
    }
    push_gap(&mut r, v[i].start, a);
    push_gap(&mut r, b, v[i].end());
    let ghost front = r@;
    k = i + 1;
    assert(r@ =~= front + v@.subrange(i + 1, i + 1));
    while k < n
        invariant
            i < k <= n,
            n == v@.len(),
            r@ == front + v@.subrange(i + 1, k as int),
        decreases n - k,
    {
        r.push(v[k]);
        k += 1;
        assert(r@ =~= front + v@.subrange(i + 1, k as int));
    }
    assert(v@.subrange(i + 1, n as int) =~= v@.skip(i + 1));
    r
}

/// What is left of `r` outside `[s, e)`.
pub open spec fn cut(r: FreeRange, s: u64, e: u64) -> Seq<FreeRange> {
    if e <= r.start || s >= r.spec_end() {
        seq![r]
    } else {
        gap(r.start, s) + gap(e, r.spec_end())
    }
}

/// What is left of `ranges` outside `[s, e)`.
pub open spec fn cut_all(ranges: Seq<FreeRange>, s: u64, e: u64) -> Seq<FreeRange>
    decreases ranges.len(),
{
    if ranges.len() == 0 {
        Seq::empty()
    } else {
        cut_all(ranges.drop_last(), s, e) + cut(ranges.last(), s, e)
    }
}

/// The part of `r` inside `[s, e)`.
pub open spec fn common(r: FreeRange, s: u64, e: u64) -> Seq<FreeRange> {
    if e <= r.start || s >= r.spec_end() {
        Seq::empty()
    } else {
        gap(
            if s > r.start {
                s
            } else {
                r.start
            },
            if e < r.spec_end() {
                e
            } else {
                r.spec_end()
            },
        )
    }
}

/// The parts of `ranges` inside `[s, e)`.
pub open spec fn common_all(ranges: Seq<FreeRange>, s: u64, e: u64) -> Seq<FreeRange>
    decreases ranges.len(),
{
    if ranges.len() == 0 {
        Seq::empty()
    } else {
        common_all(ranges.drop_last(), s, e) + common(ranges.last(), s, e)
    }
}

/// Split `ranges` at `[s, e)`: what is left outside, and the parts inside
/// behind `inside`.
pub fn cut_ranges(ranges: &Vec<FreeRange>, s: u64, e: u64, inside: &mut Vec<FreeRange>) -> (r: Vec<
    FreeRange,
>)
    ensures
        r@ == cut_all(ranges@, s, e),
        final(inside)@ == old(inside)@ + common_all(ranges@, s, e),
{
    let n: usize = ranges.len();
    let mut out: Vec<FreeRange> = Vec::new();
    let mut i: usize = 0;
    assert(ranges@.take(0) =~= Seq::<FreeRange>::empty());
    assert(inside@ =~= old(inside)@ + common_all(ranges@.take(0), s, e));
    while i < n
        invariant
            i <= n,
            n == ranges@.len(),
            out@ == cut_all(ranges@.take(i as int), s, e),
            inside@ == old(inside)@ + common_all(ranges@.take(i as int), s, e),
        decreases n - i,
    {
        let r = ranges[i];
        proof {
            assert(ranges@.take(i + 1).drop_last() =~= ranges@.take(i as int));
            assert(ranges@.take(i + 1).last() == r);
        }
        if e <= r.start || s >= r.end() {
            out.push(r);
        } else {
            let lo: u64 = if s > r.start {
                s
            } else {
                r.start
            };
            let hi: u64 = if e < r.end() {
                e
            } else {
                r.end()
            };
            push_gap(inside, lo, hi);
            push_gap(&mut out, r.start, s);
            push_gap(&mut out, e, r.end());
        }
        i += 1;
        assert(out@ =~= cut_all(ranges@.take(i as int), s, e));
        assert(inside@ =~= old(inside)@ + common_all(ranges@.take(i as int), s, e));
    }
    assert(ranges@.take(n as int) =~= ranges@);
    out
}

/// `m` with `r` behind it, united with the last range where they touch or
/// overlap.
pub open spec fn unite(m: Seq<FreeRange>, r: FreeRange) -> Seq<FreeRange> {
    if m.len() > 0 && m.last().spec_end() >= r.start {
        let end = if m.last().spec_end() > r.spec_end() {
            m.last().spec_end()
        } else {
            r.spec_end()
        };
        m.drop_last().push(
            FreeRange { start: m.last().start, length: (end - m.last().start) as u64 },
        )
    } else {
        m.push(r)
    }
}

/// Sorted ranges with neighbours united where they touch or overlap.
pub open spec fn unite_all(s: Seq<FreeRange>) -> Seq<FreeRange>
    decreases s.len(),
{
    if s.len() == 0 {
        Seq::empty()
    } else {
        unite(unite_all(s.drop_last()), s.last())
    }
}

/// Ranges in address order, united where they touch or overlap.
pub open spec fn normal(s: Seq<FreeRange>) -> Seq<FreeRange> {
    unite_all(stable_sort(s))
}

/// Put ranges in address order and unite them where they touch or overlap.
pub fn normalize(ranges: Vec<FreeRange>) -> (r: Vec<FreeRange>)
    ensures
        r@ == normal(ranges@),
{
    let mut v = ranges;
    sort_ranked(&mut v);
    let n: usize = v.len();
    let mut m: Vec<FreeRange> = Vec::new();
    let mut i: usize = 0;
    assert(v@.take(0) =~= Seq::<FreeRange>::empty());
    while i < n
        invariant
            i <= n,
            n == v@.len(),
            m@ == unite_all(v@.take(i as int)),
        decreases n - i,
    {
        let r = v[i];
        proof {
            assert(v@.take(i + 1).drop_last() =~= v@.take(i as int));
            assert(v@.take(i + 1).last() == r);
        }
        let k: usize = m.len();
        if k > 0 && m[k - 1].end() >= r.start {
            let last = m[k - 1];
            let end: u64 = if last.end() > r.end() {
                last.end()
            } else {
                r.end()
            };
            let ghost before = m@;
            m.set(k - 1, FreeRange { start: last.start, length: end - last.start });
            assert(m@ =~= unite(before, r));
        } else {
            m.push(r);
        }
        i += 1;
    }
    assert(v@.take(n as int) =~= v@);
    m
}

/// `m` with `r` behind it, joined to the last range where that one ends at
/// `r`'s start.
pub open spec fn adjoin(m: Seq<FreeRange>, r: FreeRange) -> Seq<FreeRange> {
    if m.len() > 0 && m.last().spec_end() == r.start {
        m.drop_last().push(
            FreeRange { start: m.last().start, length: cap64(m.last().length + r.length) },
        )
    } else {
        m.push(r)
    }
}

/// Ranges with neighbours joined where one ends at the next one's start.
pub open spec fn adjoin_all(s: Seq<FreeRange>) -> Seq<FreeRange>
    decreases s.len(),
{
    if s.len() == 0 {
        Seq::empty()
    } else {
        adjoin(adjoin_all(s.drop_last()), s.last())
    }
}

/// Join neighbours where one ends at the next one's start.
pub fn adjoin_ranges(v: &Vec<FreeRange>) -> (r: Vec<FreeRange>)
    ensures
        r@ == adjoin_all(v@),
{
    let n: usize = v.len();
    let mut m: Vec<FreeRange> = Vec::new();
    let mut i: usize = 0;
    assert(v@.take(0) =~= Seq::<FreeRange>::empty());
    while i < n
        invariant
            i <= n,
            n == v@.len(),
            m@ == adjoin_all(v@.take(i as int)),
        decreases n - i,
    {
        let r = v[i];
        proof {
            assert(v@.take(i + 1).drop_last() =~= v@.take(i as int));
            assert(v@.take(i + 1).last() == r);
        }
        let k: usize = m.len();
        if k > 0 && m[k - 1].end() == r.start {
            let last = m[k - 1];
            let ghost before = m@;
            m.set(
                k - 1,
                FreeRange { start: last.start, length: last.length.saturating_add(r.length) },
            );
            assert(m@ =~= adjoin(before, r));
        } else {
            m.push(r);
        }
        i += 1;
    }
    assert(v@.take(n as int) =~= v@);
    m
}

} // verus!
