//! What withholding ranges from allocation does to the free space.

use std::ops::Range;

use vstd::prelude::*;

use crate::fs::btrfs::write::exclude::in_ranges;
use crate::fs::btrfs::write::extent_tree::cap64;
use crate::fs::btrfs::write::ranges::{
    common, common_all, cut, cut_all, gap, normal, range_sum, unite, unite_all, FreeRange,
};
use crate::fs::btrfs::write::space::{exclude, exclude_bg, BgV};
use crate::sort::{ascending, Ranked, stable_sort, stable_sort_of_ascending, stable_sort_sorts};

verus! {

/// Whether one of the ranges holds `x`.
pub open spec fn within(s: Seq<FreeRange>, x: int) -> bool {
    exists|i: int| 0 <= i < s.len() && (#[trigger] s[i]).holds(x)
}

/// Ranges in address order that do not overlap.
pub open spec fn in_order(s: Seq<FreeRange>) -> bool {
    forall|i: int, j: int| 0 <= i < j < s.len() ==> s[i].spec_end() <= s[j].start
}

/// Ranges that lie in the group.
pub open spec fn inside(b: BgV, s: Seq<FreeRange>) -> bool {
    forall|i: int|
        0 <= i < s.len() ==> b.group.start <= (#[trigger] s[i]).start && s[i].spec_end() <= b.end()
}

/// Whether `[s, e)` reaches into the group.
pub open spec fn reaches(b: BgV, s: u64, e: u64) -> bool {
    s < e && s < b.end() && b.group.start < e && b.group.start < b.end()
}

pub proof fn within_concat(p: Seq<FreeRange>, q: Seq<FreeRange>, x: int)
    ensures
        within(p + q, x) == (within(p, x) || within(q, x)),
{
    let all = p + q;
    if within(p, x) {
        let i = choose|i: int| 0 <= i < p.len() && (#[trigger] p[i]).holds(x);
        assert(all[i].holds(x));
    }
    if within(q, x) {
        let i = choose|i: int| 0 <= i < q.len() && (#[trigger] q[i]).holds(x);
        assert(all[p.len() + i].holds(x));
    }
    if within(all, x) {
        let i = choose|i: int| 0 <= i < all.len() && (#[trigger] all[i]).holds(x);
        if i < p.len() {
            assert(p[i].holds(x));
        } else {
            assert(q[i - p.len()].holds(x));
        }
    }
}

pub proof fn within_one(r: FreeRange, x: int)
    ensures
        within(seq![r], x) == r.holds(x),
{
    if r.holds(x) {
        assert(seq![r][0].holds(x));
    }
}

pub proof fn within_gap(a: u64, b: u64, x: int)
    ensures
        within(gap(a, b), x) == (a <= x < b),
{
    if a < b {
        within_one(FreeRange { start: a, length: (b - a) as u64 }, x);
    }
}

pub proof fn within_last(s: Seq<FreeRange>, x: int)
    requires
        s.len() > 0,
    ensures
        within(s, x) == (within(s.drop_last(), x) || s.last().holds(x)),
{
    assert(s =~= s.drop_last() + seq![s.last()]);
    within_concat(s.drop_last(), seq![s.last()], x);
    within_one(s.last(), x);
}

pub proof fn cut_within(s: Seq<FreeRange>, a: u64, b: u64, x: int)
    requires
        a <= b,
    ensures
        within(cut_all(s, a, b), x) == (within(s, x) && !(a <= x < b)),
        within(common_all(s, a, b), x) == (within(s, x) && a <= x < b),
    decreases s.len(),
{
    if s.len() > 0 {
        let front = s.drop_last();
        let r = s.last();
        cut_within(front, a, b, x);
        within_last(s, x);
        within_concat(cut_all(front, a, b), cut(r, a, b), x);
        within_concat(common_all(front, a, b), common(r, a, b), x);
        within_one(r, x);
        if !(b <= r.start || a >= r.spec_end()) {
            within_concat(gap(r.start, a), gap(b, r.spec_end()), x);
            within_gap(r.start, a, x);
            within_gap(b, r.spec_end(), x);
            within_gap(
                if a > r.start {
                    a
                } else {
                    r.start
                },
                if b < r.spec_end() {
                    b
                } else {
                    r.spec_end()
                },
                x,
            );
        }
    }
}

proof fn united(s: Seq<FreeRange>)
    requires
        ascending(s),
    ensures
        forall|x: int| within(unite_all(s), x) == within(s, x),
        unite_all(s).len() > 0 ==> s.len() > 0 && unite_all(s).last().start <= s.last().start,
        forall|i: int, j: int|
            0 <= i < j < unite_all(s).len() ==> unite_all(s)[i].spec_end() < unite_all(s)[j].start,
    decreases s.len(),
{
    if s.len() > 0 {
        let front = s.drop_last();
        let r = s.last();
        united(front);
        let m = unite_all(front);
        let n = unite_all(s);
        assert(n == unite(m, r));
        if front.len() > 0 {
            assert(s[s.len() - 2].rank() <= s[s.len() - 1].rank());
        }
        if m.len() > 0 && m.last().spec_end() >= r.start {
            assert(n.drop_last() =~= m.drop_last());
            assert forall|i: int, j: int| 0 <= i < j < n.len() implies n[i].spec_end() < n[j].start by {
                assert(m[i].spec_end() < m[j].start);
            }
        } else {
            assert(n.drop_last() =~= m);
            assert forall|i: int, j: int| 0 <= i < j < n.len() implies n[i].spec_end() < n[j].start by {
                if j < m.len() {
                    assert(m[i].spec_end() < m[j].start);
                } else if i < m.len() - 1 {
                    assert(m[i].spec_end() < m[m.len() - 1].start);
                }
            }
        }
        assert forall|x: int| within(n, x) == within(s, x) by {
            within_last(s, x);
            within_last(n, x);
            if m.len() > 0 {
                within_last(m, x);
            }
            assert(within(m, x) == within(front, x));
        }
    }
}

pub proof fn united_stays(s: Seq<FreeRange>)
    requires
        forall|i: int, j: int| 0 <= i < j < s.len() ==> s[i].spec_end() < s[j].start,
    ensures
        unite_all(s) == s,
    decreases s.len(),
{
    if s.len() > 0 {
        let front = s.drop_last();
        united_stays(front);
        if front.len() > 0 {
            assert(s[s.len() - 2].spec_end() < s[s.len() - 1].start);
        }
        assert(s =~= front.push(s.last()));
    }
}

/// Putting ranges in order and uniting them keeps the bytes they hold, and
/// doing it twice is doing it once.
pub proof fn normal_means(s: Seq<FreeRange>)
    ensures
        forall|x: int| within(normal(s), x) == within(s, x),
        in_order(normal(s)),
        normal(normal(s)) == normal(s),
{
    broadcast use vstd::seq_lib::group_to_multiset_ensures;

    let t = stable_sort(s);
    let n = normal(s);
    stable_sort_sorts(s);
    united(t);
    assert forall|x: int| within(n, x) == within(s, x) by {
        assert(within(n, x) == within(t, x));
        if within(t, x) {
            let i = choose|i: int| 0 <= i < t.len() && (#[trigger] t[i]).holds(x);
            assert(t.to_multiset().count(t[i]) > 0);
            assert(s.contains(t[i]));
        }
        if within(s, x) {
            let i = choose|i: int| 0 <= i < s.len() && (#[trigger] s[i]).holds(x);
            assert(s.to_multiset().count(s[i]) > 0);
            assert(t.contains(s[i]));
        }
    }
    assert forall|i: int, j: int| 0 <= i <= j < n.len() implies n[i].rank() <= n[j].rank() by {
        if i < j {
            assert(n[i].spec_end() < n[j].start);
        }
    }
    stable_sort_of_ascending(n);
    united_stays(n);
}

proof fn united_proper(s: Seq<FreeRange>)
    requires
        ascending(s),
        forall|i: int|
            0 <= i < s.len() ==> (#[trigger] s[i]).length > 0 && s[i].start + s[i].length
                <= u64::MAX,
    ensures
        forall|i: int|
            0 <= i < unite_all(s).len() ==> (#[trigger] unite_all(s)[i]).length > 0 && unite_all(
                s,
            )[i].start + unite_all(s)[i].length <= u64::MAX,
    decreases s.len(),
{
    if s.len() > 0 {
        let front = s.drop_last();
        let r = s.last();
        assert(r == s[s.len() - 1]);
        assert forall|i: int| 0 <= i < front.len() implies (#[trigger] front[i]).length > 0
            && front[i].start + front[i].length <= u64::MAX by {
            assert(front[i] == s[i]);
        }
        united_proper(front);
        united(front);
        let m = unite_all(front);
        let n = unite_all(s);
        assert(n == unite(m, r));
        if m.len() > 0 {
            assert(m[m.len() - 1] == m.last());
        }
        assert forall|i: int| 0 <= i < n.len() implies (#[trigger] n[i]).length > 0 && n[i].start
            + n[i].length <= u64::MAX by {
            if i < n.len() - 1 {
                assert(n[i] == m[i]);
            }
        }
    }
}

/// Ranges that were put in order and united neither overlap nor touch; where all
/// hold something within the address space, so do the united ones.
pub proof fn normal_is_spaced(s: Seq<FreeRange>)
    requires
        forall|i: int|
            0 <= i < s.len() ==> (#[trigger] s[i]).length > 0 && s[i].start + s[i].length
                <= u64::MAX,
    ensures
        forall|i: int, j: int|
            0 <= i < j < normal(s).len() ==> normal(s)[i].spec_end() < normal(s)[j].start,
        forall|i: int|
            0 <= i < normal(s).len() ==> (#[trigger] normal(s)[i]).length > 0 && normal(s)[i].start
                + normal(s)[i].length <= u64::MAX,
{
    broadcast use vstd::seq_lib::group_to_multiset_ensures;

    let t = stable_sort(s);
    stable_sort_sorts(s);
    assert forall|i: int| 0 <= i < t.len() implies (#[trigger] t[i]).length > 0 && t[i].start
        + t[i].length <= u64::MAX by {
        assert(t.to_multiset().count(t[i]) > 0);
        assert(s.contains(t[i]));
    }
    united(t);
    united_proper(t);
}

/// Every range of `t` lies in a range of `s`, and those of different ranges
/// keep their order.
proof fn cut_keeps(s: Seq<FreeRange>, a: u64, b: u64)
    requires
        a <= b,
    ensures
        in_order(s) ==> in_order(cut_all(s, a, b)),
        forall|i: int|
            0 <= i < cut_all(s, a, b).len() ==> exists|j: int|
                0 <= j < s.len() && s[j].start <= (#[trigger] cut_all(s, a, b)[i]).start
                    && cut_all(s, a, b)[i].spec_end() <= (#[trigger] s[j]).spec_end(),
        forall|i: int|
            0 <= i < cut_all(s, a, b).len() ==> b <= (#[trigger] cut_all(s, a, b)[i]).start
                || cut_all(s, a, b)[i].spec_end() <= a,
    decreases s.len(),
{
    if s.len() > 0 {
        let front = s.drop_last();
        let r = s.last();
        cut_keeps(front, a, b);
        let p = cut_all(front, a, b);
        let q = cut(r, a, b);
        let all = cut_all(s, a, b);
        assert(all == p + q);
        assert forall|i: int| 0 <= i < q.len() implies r.start <= (#[trigger] q[i]).start
            && q[i].spec_end() <= r.spec_end() && (b <= q[i].start || q[i].spec_end() <= a) by {}
        assert forall|i: int| 0 <= i < all.len() implies exists|j: int|
            0 <= j < s.len() && s[j].start <= (#[trigger] all[i]).start && all[i].spec_end() <= (
            #[trigger] s[j]).spec_end() by {
            if i < p.len() {
                let j = choose|j: int|
                    0 <= j < front.len() && front[j].start <= p[i].start && p[i].spec_end() <= (
                    #[trigger] front[j]).spec_end();
                assert(s[j] == front[j]);
                assert(all[i] == p[i]);
            } else {
                assert(all[i] == q[i - p.len()]);
                assert(s[s.len() - 1] == r);
            }
        }
        assert forall|i: int| 0 <= i < all.len() implies b <= (#[trigger] all[i]).start
            || all[i].spec_end() <= a by {
            if i < p.len() {
                assert(all[i] == p[i]);
            } else {
                assert(all[i] == q[i - p.len()]);
            }
        }
        if in_order(s) {
            assert forall|i: int, j: int| 0 <= i < j < front.len() implies front[i].spec_end()
                <= front[j].start by {
                assert(s[i].spec_end() <= s[j].start);
            }
            assert forall|i: int, j: int| 0 <= i < j < all.len() implies all[i].spec_end()
                <= all[j].start by {
                if j < p.len() {
                    assert(p[i].spec_end() <= p[j].start);
                } else if i < p.len() {
                    let k = choose|k: int|
                        0 <= k < front.len() && front[k].start <= p[i].start && p[i].spec_end()
                            <= (#[trigger] front[k]).spec_end();
                    assert(s[k].spec_end() <= s[s.len() - 1].start);
                    assert(all[j] == q[j - p.len()]);
                }
            }
        }
    }
}

/// What is left alone by the cut stays as it is.
proof fn cut_nothing(s: Seq<FreeRange>, a: u64, b: u64)
    requires
        forall|i: int| 0 <= i < s.len() ==> b <= (#[trigger] s[i]).start || s[i].spec_end() <= a,
    ensures
        cut_all(s, a, b) == s,
        common_all(s, a, b) == Seq::<FreeRange>::empty(),
    decreases s.len(),
{
    if s.len() > 0 {
        let front = s.drop_last();
        assert forall|i: int| 0 <= i < front.len() implies b <= (#[trigger] front[i]).start
            || front[i].spec_end() <= a by {
            assert(front[i] == s[i]);
        }
        cut_nothing(front, a, b);
        assert(s[s.len() - 1] == s.last());
        assert(s =~= front + seq![s.last()]);
        assert(common_all(s, a, b) =~= Seq::<FreeRange>::empty());
    } else {
        assert(cut_all(s, a, b) =~= s);
    }
}

/// Where `c` is the group `b` with the addresses of `gone` withheld.
pub open spec fn withholds(b: BgV, c: BgV, gone: spec_fn(int) -> bool) -> bool {
    &&& forall|x: int| #[trigger] within(c.free, x) == (within(b.free, x) && !gone(x))
    &&& forall|x: int| #[trigger]
        within(c.excluded, x) == (within(b.excluded, x) || (within(b.free, x) && gone(x)))
    &&& in_order(c.free)
    &&& inside(c, c.free)
    &&& c.group == b.group
    &&& c.extents == b.extents
    &&& c.pinned == b.pinned
    &&& c.total_allocated == b.total_allocated
}

proof fn group_withholds(b: BgV, s: u64, e: u64)
    requires
        in_order(b.free),
        inside(b, b.free),
    ensures
        withholds(b, exclude_bg(b, s, e), |x: int| s <= x < e),
{
    let gone = |x: int| s <= x < e;
    let c = exclude_bg(b, s, e);
    let lo = if s > b.group.start {
        s
    } else {
        b.group.start
    };
    let hi = if e < b.end() {
        e
    } else {
        b.end()
    };
    assert forall|x: int| #[trigger] within(b.free, x) implies b.group.start <= x < b.end() by {
        let i = choose|i: int| 0 <= i < b.free.len() && (#[trigger] b.free[i]).holds(x);
    }
    if s >= e || lo >= hi {
    } else {
        let added = b.excluded + common_all(b.free, lo, hi);
        cut_keeps(b.free, lo, hi);
        normal_means(added);
        assert forall|x: int| #[trigger]
            within(c.free, x) == (within(b.free, x) && !gone(x)) by {
            cut_within(b.free, lo, hi, x);
        }
        assert forall|x: int| #[trigger]
            within(c.excluded, x) == (within(b.excluded, x) || (within(b.free, x) && gone(x))) by {
            cut_within(b.free, lo, hi, x);
            within_concat(b.excluded, common_all(b.free, lo, hi), x);
            assert(within(normal(added), x) == within(added, x));
        }
    }
}

/// Withholding ranges takes their addresses out of what is free in each group,
/// and adds those that were free to what is withheld there. The free ranges
/// stay in order and apart; usage, extents and pinned ranges stay as they are.
pub proof fn withheld_means(m: Seq<BgV>, ranges: Seq<Range<u64>>, i: int)
    requires
        0 <= i < m.len(),
        in_order(m[i].free),
        inside(m[i], m[i].free),
    ensures
        exclude(m, ranges).len() == m.len(),
        withholds(m[i], exclude(m, ranges)[i], |x: int| in_ranges(ranges, x)),
    decreases ranges.len(),
{
    let gone = |x: int| in_ranges(ranges, x);
    if ranges.len() > 0 {
        let front = ranges.drop_last();
        let r = ranges.last();
        withheld_means(m, front, i);
        let b = exclude(m, front)[i];
        let c = exclude(m, ranges)[i];
        let was = |x: int| in_ranges(front, x);
        group_withholds(b, r.start, r.end);
        let here = |x: int| r.start <= x < r.end;
        assert forall|x: int| #[trigger] gone(x) == (was(x) || here(x)) by {
            if was(x) {
                let k = choose|k: int|
                    0 <= k < front.len() && (#[trigger] front[k]).start <= x < front[k].end;
                assert(ranges[k].start <= x < ranges[k].end);
            }
            if here(x) {
                assert(ranges[ranges.len() - 1].start <= x < ranges[ranges.len() - 1].end);
            }
            if gone(x) {
                let k = choose|k: int|
                    0 <= k < ranges.len() && (#[trigger] ranges[k]).start <= x < ranges[k].end;
                if k < front.len() {
                    assert(front[k].start <= x < front[k].end);
                }
            }
        }
        assert forall|x: int| #[trigger] within(c.free, x) == (within(m[i].free, x) && !gone(x)) by {
            assert(within(b.free, x) == (within(m[i].free, x) && !was(x)));
            assert(gone(x) == (was(x) || here(x)));
        }
        assert forall|x: int| #[trigger]
            within(c.excluded, x) == (within(m[i].excluded, x) || (within(m[i].free, x) && gone(
                x,
            ))) by {
            assert(within(b.free, x) == (within(m[i].free, x) && !was(x)));
            assert(within(b.excluded, x) == (within(m[i].excluded, x) || (within(m[i].free, x)
                && was(x))));
            assert(gone(x) == (was(x) || here(x)));
        }
    } else {
        assert(exclude(m, ranges) == m);
        assert forall|x: int| !#[trigger] gone(x) by {}
    }
}

/// Whether withholding `[s, e)` from the group has nothing left to do.
spec fn settled(b: BgV, s: u64, e: u64) -> bool {
    reaches(b, s, e) ==> {
        &&& forall|i: int|
            0 <= i < b.free.len() ==> {
                ||| e <= (#[trigger] b.free[i]).start
                ||| b.end() <= b.free[i].start
                ||| b.free[i].spec_end() <= s
                ||| b.free[i].spec_end() <= b.group.start
            }
        &&& normal(b.excluded) == b.excluded
        &&& b.total_free == cap64(range_sum(b.free))
    }
}

proof fn settles(b: BgV, s: u64, e: u64)
    ensures
        settled(exclude_bg(b, s, e), s, e),
{
    if reaches(b, s, e) {
        let lo = if s > b.group.start {
            s
        } else {
            b.group.start
        };
        let hi = if e < b.end() {
            e
        } else {
            b.end()
        };
        cut_keeps(b.free, lo, hi);
        normal_means(b.excluded + common_all(b.free, lo, hi));
    }
}

proof fn stays_settled(b: BgV, s: u64, e: u64, s2: u64, e2: u64)
    requires
        settled(b, s, e),
    ensures
        settled(exclude_bg(b, s2, e2), s, e),
{
    let c = exclude_bg(b, s2, e2);
    if reaches(b, s, e) && reaches(b, s2, e2) {
        let lo = if s2 > b.group.start {
            s2
        } else {
            b.group.start
        };
        let hi = if e2 < b.end() {
            e2
        } else {
            b.end()
        };
        cut_keeps(b.free, lo, hi);
        normal_means(b.excluded + common_all(b.free, lo, hi));
        assert forall|i: int| 0 <= i < c.free.len() implies {
            ||| e <= (#[trigger] c.free[i]).start
            ||| b.end() <= c.free[i].start
            ||| c.free[i].spec_end() <= s
            ||| c.free[i].spec_end() <= b.group.start
        } by {
            let j = choose|j: int|
                0 <= j < b.free.len() && b.free[j].start <= c.free[i].start && c.free[i].spec_end()
                    <= (#[trigger] b.free[j]).spec_end();
        }
    }
}

proof fn settled_stays(b: BgV, s: u64, e: u64)
    requires
        settled(b, s, e),
    ensures
        exclude_bg(b, s, e) == b,
{
    if reaches(b, s, e) {
        let lo = if s > b.group.start {
            s
        } else {
            b.group.start
        };
        let hi = if e < b.end() {
            e
        } else {
            b.end()
        };
        cut_nothing(b.free, lo, hi);
        assert(b.excluded + Seq::<FreeRange>::empty() =~= b.excluded);
    }
}

proof fn all_settled(m: Seq<BgV>, ranges: Seq<Range<u64>>, i: int, k: int)
    requires
        0 <= i < m.len(),
        0 <= k < ranges.len(),
    ensures
        exclude(m, ranges).len() == m.len(),
        settled(exclude(m, ranges)[i], ranges[k].start, ranges[k].end),
    decreases ranges.len(),
{
    let front = ranges.drop_last();
    let r = ranges.last();
    excluded_len(m, front);
    let b = exclude(m, front)[i];
    if k < front.len() {
        all_settled(m, front, i, k);
        assert(front[k] == ranges[k]);
        stays_settled(b, ranges[k].start, ranges[k].end, r.start, r.end);
    } else {
        settles(b, r.start, r.end);
    }
}

proof fn excluded_len(m: Seq<BgV>, ranges: Seq<Range<u64>>)
    ensures
        exclude(m, ranges).len() == m.len(),
    decreases ranges.len(),
{
    if ranges.len() > 0 {
        excluded_len(m, ranges.drop_last());
    }
}

proof fn settled_for_all(m: Seq<BgV>, ranges: Seq<Range<u64>>)
    requires
        forall|i: int, k: int|
            0 <= i < m.len() && 0 <= k < ranges.len() ==> settled(
                #[trigger] m[i],
                (#[trigger] ranges[k]).start,
                ranges[k].end,
            ),
    ensures
        exclude(m, ranges) == m,
    decreases ranges.len(),
{
    if ranges.len() > 0 {
        let front = ranges.drop_last();
        let r = ranges.last();
        assert forall|i: int, k: int| 0 <= i < m.len() && 0 <= k < front.len() implies settled(
            #[trigger] m[i],
            (#[trigger] front[k]).start,
            front[k].end,
        ) by {
            assert(front[k] == ranges[k]);
        }
        settled_for_all(m, front);
        let n = exclude(m, ranges);
        assert forall|i: int| 0 <= i < m.len() implies #[trigger] n[i] == m[i] by {
            assert(ranges[ranges.len() - 1] == r);
            settled_stays(m[i], r.start, r.end);
        }
        assert(n =~= m);
    }
}

/// Withholding the same ranges a second time changes nothing.
pub proof fn withheld_once(m: Seq<BgV>, ranges: Seq<Range<u64>>)
    ensures
        exclude(exclude(m, ranges), ranges) == exclude(m, ranges),
{
    let n = exclude(m, ranges);
    excluded_len(m, ranges);
    assert forall|i: int, k: int| 0 <= i < n.len() && 0 <= k < ranges.len() implies settled(
        #[trigger] n[i],
        (#[trigger] ranges[k]).start,
        ranges[k].end,
    ) by {
        all_settled(m, ranges, i, k);
    }
    settled_for_all(n, ranges);
}

} // verus!
