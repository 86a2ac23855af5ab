//! A set of disjoint sorted intervals, for detecting double allocation.

use vstd::prelude::*;

use crate::seqs::{copy_vec, first_idx, first_idx_is, first_idx_props};

verus! {

/// Whether `x` lies in one of the intervals.
pub open spec fn covers(s: Seq<(u64, u64)>, x: int) -> bool {
    exists|i: int| 0 <= i < s.len() && #[trigger] s[i].0 <= x < s[i].1
}

/// Intervals are not empty, ascend, and do not even touch.
pub open spec fn canonical(s: Seq<(u64, u64)>) -> bool {
    &&& forall|i: int| 0 <= i < s.len() ==> (#[trigger] s[i]).0 < s[i].1
    &&& forall|i: int, j: int|
        0 <= i < j < s.len() ==> (#[trigger] s[i]).1 < (#[trigger] s[j]).0
}

/// How many intervals start below `end`.
pub open spec fn cut_point(s: Seq<(u64, u64)>, end: u64) -> int {
    first_idx(s, |p: (u64, u64)| p.0 >= end)
}

/// Whether `[start, end)` meets an interval.
pub open spec fn meets(s: Seq<(u64, u64)>, start: u64, end: u64) -> bool {
    cut_point(s, end) > 0 && s[cut_point(s, end) - 1].1 > start
}

/// The intervals with the disjoint `[start, end)` added, united with the
/// neighbours it touches.
pub open spec fn with_interval(s: Seq<(u64, u64)>, start: u64, end: u64) -> Seq<(u64, u64)> {
    let i = cut_point(s, end);
    let left = i > 0 && s[i - 1].1 == start;
    let right = i < s.len() && s[i].0 == end;
    s.take(
        if left {
            i - 1
        } else {
            i
        },
    ) + seq![
        (
            if left {
                s[i - 1].0
            } else {
                start
            },
            if right {
                s[i].1
            } else {
                end
            },
        ),
    ] + s.skip(
        if right {
            i + 1
        } else {
            i
        },
    )
}

/// An interval as a sequence, if it is not empty.
pub open spec fn piece(a: u64, b: u64) -> Seq<(u64, u64)> {
    if a < b {
        seq![(a, b)]
    } else {
        Seq::empty()
    }
}

/// The intervals without `[start, end)`.
pub open spec fn without(s: Seq<(u64, u64)>, start: u64, end: u64) -> Seq<(u64, u64)>
    decreases s.len(),
{
    if s.len() == 0 {
        Seq::empty()
    } else {
        let p = s.last();
        without(s.drop_last(), start, end) + if p.1 <= start || p.0 >= end {
            seq![p]
        } else {
            piece(p.0, start) + piece(end, p.1)
        }
    }
}

/// Disjoint intervals of addresses.
#[derive(Debug, PartialEq, Eq)]
pub struct IntervalSet {
    intervals: Vec<(u64, u64)>,
}

impl View for IntervalSet {
    type V = Seq<(u64, u64)>;

    closed spec fn view(&self) -> Seq<(u64, u64)> {
        self.intervals@
    }
}

/// The cut point divides starts below `end` from the others.
pub proof fn cut_point_props(s: Seq<(u64, u64)>, end: u64)
    ensures
        0 <= cut_point(s, end) <= s.len(),
        forall|j: int| 0 <= j < cut_point(s, end) ==> (#[trigger] s[j]).0 < end,
        cut_point(s, end) < s.len() ==> s[cut_point(s, end)].0 >= end,
{
    let f = |p: (u64, u64)| p.0 >= end;
    first_idx_props(s, f);
    assert forall|j: int| 0 <= j < cut_point(s, end) implies (#[trigger] s[j]).0 < end by {
        assert(!f(s[j]));
    }
}

/// An interval meets the set exactly where they have an address in common.
pub proof fn meets_means(s: Seq<(u64, u64)>, start: u64, end: u64)
    requires
        canonical(s),
        start < end,
    ensures
        meets(s, start, end) == (exists|x: int| start <= x < end && #[trigger] covers(s, x)),
{
    cut_point_props(s, end);
    let i = cut_point(s, end);
    if meets(s, start, end) {
        let p = s[i - 1];
        let x: int = if p.0 > start {
            p.0 as int
        } else {
            start as int
        };
        assert(s[i - 1].0 <= x < s[i - 1].1);
        assert(covers(s, x));
    } else {
        assert forall|x: int| start <= x < end implies !#[trigger] covers(s, x) by {
            if covers(s, x) {
                let j = choose|j: int| 0 <= j < s.len() && #[trigger] s[j].0 <= x < s[j].1;
                if j >= i {
                    if j > i {
                        assert(s[i].1 < s[j].0);
                    }
                } else if j < i - 1 {
                    assert(s[j].1 < s[i - 1].0);
                }
            }
        }
    }
}

/// Adding a disjoint interval keeps the set canonical and adds exactly its
/// addresses.
#[verifier::rlimit(60)]
#[verifier::spinoff_prover]
pub proof fn with_interval_means(s: Seq<(u64, u64)>, start: u64, end: u64)
    requires
        canonical(s),
        start < end,
        !meets(s, start, end),
    ensures
        canonical(with_interval(s, start, end)),
        forall|x: int|
            #[trigger] covers(with_interval(s, start, end), x) == (covers(s, x) || start <= x
                < end),
{
    cut_point_props(s, end);
    let i = cut_point(s, end);
    let left = i > 0 && s[i - 1].1 == start;
    let right = i < s.len() && s[i].0 == end;
    let lo = if left {
        i - 1
    } else {
        i
    };
    let hi = if right {
        i + 1
    } else {
        i
    };
    let t = with_interval(s, start, end);
    let mid = t[lo];
    assert forall|k: int| 0 <= k < t.len() implies t[k] == if k < lo {
        s[k]
    } else if k == lo {
        mid
    } else {
        s[k - lo - 1 + hi]
    } by {}
    assert(canonical(t)) by {
        assert forall|a: int, b: int| 0 <= a < b < t.len() implies (#[trigger] t[a]).1 < (
        #[trigger] t[b]).0 by {
            if a < lo && b == lo {
                if a < i - 1 {
                    assert(s[a].1 < s[i - 1].0);
                }
            } else if a == lo {
                if right {
                    assert(s[i].1 < s[b - lo - 1 + hi].0);
                }
            }
        }
    }
    assert forall|x: int| #[trigger] covers(t, x) == (covers(s, x) || start <= x < end) by {
        if covers(t, x) {
            let k = choose|k: int| 0 <= k < t.len() && #[trigger] t[k].0 <= x < t[k].1;
            if k < lo {
                assert(s[k].0 <= x < s[k].1);
            } else if k > lo {
                assert(s[k - lo - 1 + hi].0 <= x < s[k - lo - 1 + hi].1);
            } else if !(start <= x < end) {
                if x < start {
                    assert(s[i - 1].0 <= x < s[i - 1].1);
                } else {
                    assert(s[i].0 <= x < s[i].1);
                }
            }
        }
        if start <= x < end {
            assert(t[lo].0 <= x < t[lo].1);
        }
        if covers(s, x) {
            let k = choose|k: int| 0 <= k < s.len() && #[trigger] s[k].0 <= x < s[k].1;
            if k < lo {
                assert(t[k].0 <= x < t[k].1);
            } else if k >= hi {
                assert(t[k - hi + lo + 1].0 <= x < t[k - hi + lo + 1].1);
            } else {
                assert(t[lo].0 <= x < t[lo].1);
            }
        }
    }
}

/// Removing an interval keeps the set canonical and removes exactly its
/// addresses.
pub proof fn without_means(s: Seq<(u64, u64)>, start: u64, end: u64)
    requires
        canonical(s),
        start < end,
    ensures
        canonical(without(s, start, end)),
        forall|x: int|
            #[trigger] covers(without(s, start, end), x) == (covers(s, x) && !(start <= x < end)),
        without(s, start, end).len() > 0 ==> s.len() > 0 && without(s, start, end).last().1
            <= s.last().1,
    decreases s.len(),
{
    if s.len() > 0 {
        let rest = s.drop_last();
        assert(canonical(rest));
        without_means(rest, start, end);
        let u = without(rest, start, end);
        let p = s.last();
        let v = if p.1 <= start || p.0 >= end {
            seq![p]
        } else {
            piece(p.0, start) + piece(end, p.1)
        };
        let t = u + v;
        assert(t == without(s, start, end));
        assert(rest.len() > 0 ==> s[rest.len() - 1] == rest.last());
        assert forall|i: int| 0 <= i < u.len() implies (#[trigger] u[i]).1 < p.0 by {
            if i < u.len() - 1 {
                assert(u[i].1 < u[u.len() - 1].0);
            }
            assert(s[rest.len() - 1].1 < s[s.len() - 1].0);
        }
        assert forall|i: int, j: int| 0 <= i < j < t.len() implies (#[trigger] t[i]).1 < (
        #[trigger] t[j]).0 by {
            if i < u.len() && j >= u.len() {
                assert(u[i].1 < p.0);
            }
        }
        assert(canonical(t));
        assert forall|x: int| #[trigger] covers(t, x) == (covers(s, x) && !(start <= x < end)) by {
            if covers(t, x) {
                let k = choose|k: int| 0 <= k < t.len() && #[trigger] t[k].0 <= x < t[k].1;
                if k < u.len() {
                    assert(u[k].0 <= x < u[k].1);
                    assert(covers(u, x));
                    let q = choose|q: int|
                        0 <= q < rest.len() && #[trigger] rest[q].0 <= x < rest[q].1;
                    assert(s[q].0 <= x < s[q].1);
                } else {
                    assert(s[s.len() - 1].0 <= x < s[s.len() - 1].1);
                }
            }
            if covers(s, x) && !(start <= x < end) {
                let q = choose|q: int| 0 <= q < s.len() && #[trigger] s[q].0 <= x < s[q].1;
                if q < rest.len() {
                    assert(rest[q].0 <= x < rest[q].1);
                    assert(covers(rest, x));
                    assert(covers(u, x));
                    let k = choose|k: int| 0 <= k < u.len() && #[trigger] u[k].0 <= x < u[k].1;
                    assert(t[k].0 <= x < t[k].1);
                } else if p.1 <= start || p.0 >= end {
                    assert(t[u.len() as int].0 <= x < t[u.len() as int].1);
                } else if x < start {
                    assert(t[u.len() as int].0 <= x < t[u.len() as int].1);
                } else {
                    assert(t[t.len() - 1].0 <= x < t[t.len() - 1].1);
                }
            }
        }
    }
}

impl Default for IntervalSet {
    fn default() -> (r: Self)
        ensures
            r@ == Seq::<(u64, u64)>::empty(),
    {
        IntervalSet { intervals: Vec::new() }
    }
}

impl Clone for IntervalSet {
    fn clone(&self) -> (r: Self)
        ensures
            r@ == self@,
    {
        proof {
            use_type_invariant(self);
        }
        IntervalSet { intervals: copy_vec(&self.intervals) }
    }
}

impl IntervalSet {
    #[verifier::type_invariant]
    spec fn inv(self) -> bool {
        canonical(self.intervals@)
    }

    /// The empty set.
    pub fn new() -> (r: Self)
        ensures
            r@ == Seq::<(u64, u64)>::empty(),
    {
        IntervalSet { intervals: Vec::new() }
    }

    fn cut(&self, end: u64) -> (i: usize)
        ensures
            i == cut_point(self@, end),
            i <= self.intervals@.len(),
    {
        let ghost f = |p: (u64, u64)| p.0 >= end;
        let n: usize = self.intervals.len();
        let mut lo: usize = 0;
        let mut hi: usize = n;
        proof {
            use_type_invariant(self);
        }
        while lo < hi
            invariant
                lo <= hi <= n,
                n == self.intervals@.len(),
                canonical(self.intervals@),
                f == (|p: (u64, u64)| p.0 >= end),
                forall|j: int| 0 <= j < lo ==> !f(#[trigger] self.intervals@[j]),
                forall|j: int| hi <= j < n ==> f(#[trigger] self.intervals@[j]),
            decreases hi - lo,
        {
            let mid: usize = lo + (hi - lo) / 2;
            if self.intervals[mid].0 < end {
                assert forall|j: int| 0 <= j < mid + 1 implies !f(
                    #[trigger] self.intervals@[j],
                ) by {
                    if j < mid {
                        assert(self.intervals@[j].1 < self.intervals@[mid as int].0);
                        assert(self.intervals@[j].0 < self.intervals@[j].1);
                    }
                }
                lo = mid + 1;
            } else {
                assert forall|j: int| mid <= j < n implies f(#[trigger] self.intervals@[j]) by {
                    if j > mid {
                        assert(self.intervals@[mid as int].1 < self.intervals@[j].0);
                        assert(self.intervals@[mid as int].0 < self.intervals@[mid as int].1);
                    }
                }
                hi = mid;
            }
        }
        proof {
            first_idx_is(self.intervals@, f, lo as int);
        }
        lo
    }

    /// Whether `[start, start + length)` has an address in common with the set.
    ///
    /// A range past the end of the address space counts as overlapping.
    pub fn overlaps(&self, start: u64, length: u64) -> (r: bool)
        ensures
            r == (length > 0 && (start + length > u64::MAX || meets(
                self@,
                start,
                (start + length) as u64,
            ))),
            length > 0 && start + length <= u64::MAX ==> r == (exists|x: int|
                start <= x < start + length && #[trigger] covers(self@, x)),
    {
        proof {
            use_type_invariant(self);
        }
        if length == 0 {
            return false;
        }
        if start > u64::MAX - length {
            return true;
        }
        let end: u64 = start + length;
        proof {
            meets_means(self@, start, end);
        }
        let i: usize = self.cut(end);
        i > 0 && self.intervals[i - 1].1 > start
    }

    /// Insert `[start, start + length)`; refused where it overlaps the set.
    pub fn insert(&mut self, start: u64, length: u64) -> (r: bool)
        ensures
            r == (length == 0 || (start + length <= u64::MAX && !meets(
                old(self)@,
                start,
                (start + length) as u64,
            ))),
            final(self)@ == if r && length > 0 {
                with_interval(old(self)@, start, (start + length) as u64)
            } else {
                old(self)@
            },
    {
        proof {
            use_type_invariant(&*self);
        }
        if length == 0 {
            return true;
        }
        if start > u64::MAX - length {
            return false;
        }
        let end: u64 = start + length;
        let i: usize = self.cut(end);
        let ghost s = self@;
        let n: usize = self.intervals.len();
        if i > 0 && self.intervals[i - 1].1 > start {
            return false;
        }
        proof {
            with_interval_means(s, start, end);
        }
        let left: bool = i > 0 && self.intervals[i - 1].1 == start;
        let right: bool = i < n && self.intervals[i].0 == end;
        let lo: usize = if left {
            i - 1
        } else {
            i
        };
        let hi: usize = if right {
            i + 1
        } else {
            i
        };
        let a: u64 = if left {
            self.intervals[i - 1].0
        } else {
            start
        };
        let b: u64 = if right {
            self.intervals[i].1
        } else {
            end
        };
        let mut out: Vec<(u64, u64)> = Vec::new();
        let mut k: usize = 0;
        while k < lo
            invariant
                k <= lo <= n,
                n == self.intervals@.len(),
                self.intervals@ == s,
                out@ == s.take(k as int),
            decreases lo - k,
        {
            out.push(self.intervals[k]);
            k += 1;
            assert(out@ =~= s.take(k as int));
        }
        out.push((a, b));
        let ghost front = out@;
        k = hi;
        assert(out@ =~= front + s.subrange(hi as int, hi as int));
        while k < n
            invariant
                hi <= k <= n,
                n == self.intervals@.len(),
                self.intervals@ == s,
                out@ == front + s.subrange(hi as int, k as int),
            decreases n - k,
        {
            out.push(self.intervals[k]);
            k += 1;
            assert(out@ =~= front + s.subrange(hi as int, k as int));
        }
        assert(out@ =~= with_interval(s, start, end));
        self.intervals = out;
        true
    }

    fn cut_interval(&mut self, start: u64, end: u64)
        requires
            start < end,
        ensures
            final(self)@ == without(old(self)@, start, end),
    {
        proof {
            use_type_invariant(&*self);
            without_means(self@, start, end);
        }
        let ghost s = self@;
        let n: usize = self.intervals.len();
        let mut out: Vec<(u64, u64)> = Vec::new();
        let mut i: usize = 0;
        assert(s.take(0) =~= Seq::<(u64, u64)>::empty());
        while i < n
            invariant
                i <= n,
                n == self.intervals@.len(),
                self.intervals@ == s,
                out@ == without(s.take(i as int), start, end),
            decreases n - i,
        {
            let (a, b) = self.intervals[i];
            proof {
                assert(s.take(i + 1).drop_last() =~= s.take(i as int));
                assert(s.take(i + 1).last() == (a, b));
            }
            if b <= start || a >= end {
                out.push((a, b));
            } else {
                if a < start {
                    out.push((a, start));
                }
                if end < b {
                    out.push((end, b));
                }
            }
            i += 1;
            assert(out@ =~= without(s.take(i as int), start, end));
        }
        assert(s.take(n as int) =~= s);
        self.intervals = out;
    }

    /// Remove `[start, start + length)`; a range past the end of the address
    /// space changes nothing.
    pub fn remove(&mut self, start: u64, length: u64)
        ensures
            final(self)@ == if length == 0 || start + length > u64::MAX {
                old(self)@
            } else {
                without(old(self)@, start, (start + length) as u64)
            },
    {
        if length == 0 || start > u64::MAX - length {
            return;
        }
        self.cut_interval(start, start + length);
    }

    /// Remove `[start, start + length)` if one interval holds all of it.
    pub fn remove_exact(&mut self, start: u64, length: u64) -> (r: bool)
        ensures
            r == (length == 0 || (start + length <= u64::MAX && exists|i: int|
                0 <= i < old(self)@.len() && (#[trigger] old(self)@[i]).0 <= start && start + length
                    <= old(self)@[i].1)),
            final(self)@ == if r && length > 0 {
                without(old(self)@, start, (start + length) as u64)
            } else {
                old(self)@
            },
    {
        if length == 0 {
            return true;
        }
        if start > u64::MAX - length {
            return false;
        }
        let end: u64 = start + length;
        let n: usize = self.intervals.len();
        let mut i: usize = 0;
        while i < n
            invariant
                i <= n,
                n == self.intervals@.len(),
                *self == *old(self),
                end == start + length,
                length > 0,
                forall|j: int|
                    0 <= j < i ==> !((#[trigger] old(self)@[j]).0 <= start && start + length
                        <= old(self)@[j].1),
            decreases n - i,
        {
            let (a, b) = self.intervals[i];
            if a <= start && end <= b {
                assert(old(self)@[i as int].0 <= start);
                self.cut_interval(start, end);
                return true;
            }
            i += 1;
        }
        false
    }

    /// How many disjoint intervals there are.
    pub fn len(&self) -> (r: usize)
        ensures
            r == self@.len(),
    {
        self.intervals.len()
    }

    /// Whether the set is empty.
    pub fn is_empty(&self) -> (r: bool)
        ensures
            r == (self@.len() == 0),
    {
        self.intervals.len() == 0
    }

    /// Remove everything.
    pub fn clear(&mut self)
        ensures
            final(self)@ == Seq::<(u64, u64)>::empty(),
    {
        self.intervals = Vec::new();
    }

    /// The intervals as `(start, end)` in address order.
    pub fn intervals(&self) -> (r: &[(u64, u64)])
        ensures
            r@ == self@,
            canonical(r@),
    {
        proof {
            use_type_invariant(self);
        }
        self.intervals.as_slice()
    }
}

} // verus!
