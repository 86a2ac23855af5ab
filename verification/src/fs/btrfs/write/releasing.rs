//! What is freed waits until it is released, and what releasing it does to the
//! free space.

use vstd::prelude::*;

use crate::fs::btrfs::write::handout::{
    first_fit_hands_out, hands_out, lies_in, metadata_is_handed_out, offered,
    run_is_handed_out,
};
use crate::fs::btrfs::write::ranges::{
    adjoin, adjoin_all, cut, cut_all, normal, range_sum, FreeRange,
};
use crate::fs::btrfs::write::space::{
    alloc_meta, alloc_run, cut_holes, first_fit, free_block, pin, unpin, unpin_bg, BgV,
};
use crate::fs::btrfs::write::tree_map::freeing_offers_nothing;
use crate::fs::btrfs::write::withholding::{
    cut_within, normal_is_spaced, normal_means, within, within_concat, within_last, within_one,
};
use crate::seqs::{first_idx, first_idx_is, first_idx_props};

verus! {

/// Ranges in address order that neither overlap nor touch.
pub open spec fn spaced(s: Seq<FreeRange>) -> bool {
    forall|i: int, j: int| 0 <= i < j < s.len() ==> s[i].spec_end() < s[j].start
}

/// Ranges that hold something and end within the address space.
pub open spec fn proper(s: Seq<FreeRange>) -> bool {
    forall|i: int|
        0 <= i < s.len() ==> (#[trigger] s[i]).length > 0 && s[i].start + s[i].length <= u64::MAX
}

/// Cutting something out of spaced ranges leaves them spaced.
proof fn cut_stays_spaced(s: Seq<FreeRange>, a: u64, b: u64)
    requires
        a < b,
        spaced(s),
        proper(s),
    ensures
        spaced(cut_all(s, a, b)),
        proper(cut_all(s, a, b)),
        cut_all(s, a, b).len() > 0 ==> s.len() > 0 && cut_all(s, a, b).last().spec_end()
            <= s.last().spec_end(),
    decreases s.len(),
{
    if s.len() > 0 {
        let front = s.drop_last();
        let r = s.last();
        assert(r == s[s.len() - 1]);
        assert forall|i: int, j: int| 0 <= i < j < front.len() implies front[i].spec_end()
            < front[j].start by {
            assert(s[i].spec_end() < s[j].start);
        }
        assert forall|i: int| 0 <= i < front.len() implies (#[trigger] front[i]).length > 0
            && front[i].start + front[i].length <= u64::MAX by {
            assert(front[i] == s[i]);
        }
        cut_stays_spaced(front, a, b);
        let p = cut_all(front, a, b);
        let q = cut(r, a, b);
        let all = cut_all(s, a, b);
        assert(all == p + q);
        assert forall|i: int| 0 <= i < q.len() implies r.start <= (#[trigger] q[i]).start
            && q[i].spec_end() <= r.spec_end() && q[i].length > 0 && q[i].start + q[i].length
            <= u64::MAX by {}
        assert(q.len() == 2 ==> q[0].spec_end() < q[1].start);
        assert forall|i: int, j: int| 0 <= i < j < all.len() implies all[i].spec_end()
            < all[j].start by {
            if j < p.len() {
                assert(p[i].spec_end() < p[j].start);
            } else if i < p.len() {
                assert(all[j] == q[j - p.len()]);
                assert(p[i].spec_end() <= p.last().spec_end()) by {
                    if i < p.len() - 1 {
                        assert(p[i].spec_end() < p[p.len() - 1].start);
                    }
                }
                assert(front.last().spec_end() < r.start) by {
                    assert(s[s.len() - 2].spec_end() < s[s.len() - 1].start);
                }
            } else {
                assert(all[i] == q[i - p.len()] && all[j] == q[j - p.len()]);
            }
        }
        assert forall|i: int| 0 <= i < all.len() implies (#[trigger] all[i]).length > 0
            && all[i].start + all[i].length <= u64::MAX by {
            if i < p.len() {
                assert(all[i] == p[i]);
            } else {
                assert(all[i] == q[i - p.len()]);
            }
        }
        if all.len() > 0 {
            if q.len() > 0 {
                assert(all.last() == q.last());
                assert(q.last() == q[q.len() - 1]);
            } else {
                assert(all =~= p);
                assert(front.last().spec_end() < r.start) by {
                    assert(s[s.len() - 2].spec_end() < s[s.len() - 1].start);
                }
            }
        }
    }
}

/// What is left outside the holes.
proof fn holes_cut(s: Seq<FreeRange>, holes: Seq<FreeRange>)
    requires
        spaced(s),
        proper(s),
        proper(holes),
    ensures
        spaced(cut_holes(s, holes)),
        proper(cut_holes(s, holes)),
        forall|x: int| #[trigger]
            within(cut_holes(s, holes), x) == (within(s, x) && !within(holes, x)),
    decreases holes.len(),
{
    if holes.len() > 0 {
        let front = holes.drop_last();
        let h = holes.last();
        assert(h == holes[holes.len() - 1]);
        assert forall|i: int| 0 <= i < front.len() implies (#[trigger] front[i]).length > 0
            && front[i].start + front[i].length <= u64::MAX by {
            assert(front[i] == holes[i]);
        }
        holes_cut(s, front);
        let l = cut_holes(s, front);
        cut_stays_spaced(l, h.start, h.spec_end());
        assert forall|x: int| #[trigger]
            within(cut_holes(s, holes), x) == (within(s, x) && !within(holes, x)) by {
            cut_within(l, h.start, h.spec_end(), x);
            within_last(holes, x);
            assert(within(l, x) == (within(s, x) && !within(front, x)));
        }
    } else {
        assert forall|x: int| !within(holes, x) by {}
    }
}

/// Spaced ranges hold no more bytes than lie before their end.
proof fn spaced_sum(s: Seq<FreeRange>)
    requires
        spaced(s),
        proper(s),
    ensures
        s.len() > 0 ==> range_sum(s) <= s.last().spec_end(),
        0 <= range_sum(s) <= u64::MAX,
    decreases s.len(),
{
    if s.len() > 0 {
        let front = s.drop_last();
        assert forall|i: int, j: int| 0 <= i < j < front.len() implies front[i].spec_end()
            < front[j].start by {
            assert(s[i].spec_end() < s[j].start);
        }
        assert forall|i: int| 0 <= i < front.len() implies (#[trigger] front[i]).length > 0
            && front[i].start + front[i].length <= u64::MAX by {
            assert(front[i] == s[i]);
        }
        spaced_sum(front);
        assert(s[s.len() - 1] == s.last());
        if front.len() > 0 {
            assert(s[s.len() - 2].spec_end() < s[s.len() - 1].start);
        }
    }
}

/// Where `c` is the group `b` with its pinned ranges released.
pub open spec fn releases(b: BgV, c: BgV) -> bool {
    &&& c.pinned.len() == 0
    &&& b.pinned.len() == 0 ==> c == b
    &&& b.pinned.len() > 0 ==> {
        &&& forall|x: int| #[trigger]
            within(c.free, x) == ((within(b.free, x) || within(b.pinned, x)) && !within(
                b.excluded,
                x,
            ))
        &&& spaced(c.free)
        &&& proper(c.free)
        &&& c.total_free == range_sum(c.free)
    }
    &&& c.group == b.group
    &&& c.extents == b.extents
    &&& c.excluded == b.excluded
    &&& c.total_allocated == b.total_allocated
}

/// Releasing what is pinned makes free, in each group that has something pinned,
/// just the free and pinned bytes that are not withheld, as ranges that neither
/// overlap nor touch. Nothing is pinned afterwards; usage and what is withheld
/// stay as they are, and so does a group with nothing pinned.
pub proof fn released_means(m: Seq<BgV>, i: int)
    requires
        0 <= i < m.len(),
        proper(m[i].free),
        proper(m[i].pinned),
        proper(m[i].excluded),
    ensures
        unpin(m).len() == m.len(),
        releases(m[i], unpin(m)[i]),
{
    let b = m[i];
    let c = unpin(m)[i];
    assert(c == unpin_bg(b));
    if b.pinned.len() > 0 {
        let both = b.free + b.pinned;
        let n = normal(both);
        normal_means(both);
        assert forall|k: int| 0 <= k < both.len() implies (#[trigger] both[k]).length > 0
            && both[k].start + both[k].length <= u64::MAX by {
            if k < b.free.len() {
                assert(both[k] == b.free[k]);
            } else {
                assert(both[k] == b.pinned[k - b.free.len()]);
            }
        }
        normal_is_spaced(both);
        holes_cut(n, b.excluded);
        spaced_sum(c.free);
        assert forall|x: int| #[trigger]
            within(c.free, x) == ((within(b.free, x) || within(b.pinned, x)) && !within(
                b.excluded,
                x,
            )) by {
            within_concat(b.free, b.pinned, x);
            assert(within(n, x) == within(both, x));
        }
    } else {
        assert(b.pinned =~= Seq::<FreeRange>::empty());
    }
}

/// Releasing a second time changes nothing.
pub proof fn released_once(m: Seq<BgV>)
    ensures
        unpin(unpin(m)) == unpin(m),
{
    assert(unpin(unpin(m)) =~= unpin(m));
}

proof fn adjoined(s: Seq<FreeRange>)
    requires
        forall|i: int| 0 <= i < s.len() ==> (#[trigger] s[i]).start + s[i].length <= u64::MAX,
    ensures
        forall|x: int| #[trigger] within(adjoin_all(s), x) == within(s, x),
        forall|i: int|
            0 <= i < adjoin_all(s).len() ==> (#[trigger] adjoin_all(s)[i]).start + adjoin_all(
                s,
            )[i].length <= u64::MAX,
    decreases s.len(),
{
    if s.len() > 0 {
        let front = s.drop_last();
        let r = s.last();
        assert(r == s[s.len() - 1]);
        assert forall|i: int| 0 <= i < front.len() implies (#[trigger] front[i]).start
            + front[i].length <= u64::MAX by {
            assert(front[i] == s[i]);
        }
        adjoined(front);
        let m = adjoin_all(front);
        let n = adjoin_all(s);
        assert(n == adjoin(m, r));
        if m.len() > 0 {
            assert(m[m.len() - 1] == m.last());
        }
        assert forall|i: int| 0 <= i < n.len() implies (#[trigger] n[i]).start + n[i].length
            <= u64::MAX by {
            if i < n.len() - 1 {
                assert(n[i] == m[i]);
            }
        }
        assert forall|x: int| #[trigger] within(n, x) == within(s, x) by {
            within_last(s, x);
            within_last(n, x);
            assert(within(m, x) == within(front, x));
            if m.len() > 0 && m.last().spec_end() == r.start {
                within_last(m, x);
                assert(n.drop_last() =~= m.drop_last());
            } else {
                assert(n.drop_last() =~= m);
            }
        }
    }
}

/// Pinning a range adds just its bytes to what is pinned.
pub proof fn pinned_means(pinned: Seq<FreeRange>, a: u64, length: u64)
    requires
        forall|i: int|
            0 <= i < pinned.len() ==> (#[trigger] pinned[i]).start + pinned[i].length <= u64::MAX,
        a + length <= u64::MAX,
    ensures
        forall|x: int| #[trigger]
            within(pin(pinned, a, length), x) == (within(pinned, x) || a <= x < a + length),
{
    let f = |r: FreeRange| r.start >= a;
    let p = first_idx(pinned, f);
    first_idx_props(pinned, f);
    let r = FreeRange { start: a, length };
    let s = pinned.insert(p, r);
    assert forall|i: int| 0 <= i < s.len() implies (#[trigger] s[i]).start + s[i].length
        <= u64::MAX by {
        if i < p {
            assert(s[i] == pinned[i]);
        } else if i > p {
            assert(s[i] == pinned[i - 1]);
        }
    }
    adjoined(s);
    assert(s =~= pinned.take(p) + seq![r] + pinned.skip(p));
    assert(pinned =~= pinned.take(p) + pinned.skip(p));
    assert forall|x: int| #[trigger]
        within(pin(pinned, a, length), x) == (within(pinned, x) || a <= x < a + length) by {
        within_concat(pinned.take(p) + seq![r], pinned.skip(p), x);
        within_concat(pinned.take(p), seq![r], x);
        within_concat(pinned.take(p), pinned.skip(p), x);
        within_one(r, x);
        assert(within(adjoin_all(s), x) == within(s, x));
    }
}

/// Freeing a block pins just its bytes, in the first group that it lies in; the
/// usage of that group falls by the block, but not below zero; nothing becomes
/// free, and all else stays as it is.
pub proof fn freed_is_pinned(m: Seq<BgV>, a: u64, size: u32, g: int)
    requires
        a + size <= u64::MAX,
        0 <= g < m.len(),
        m[g].contains(a, (a + size) as u64),
        forall|i: int| 0 <= i < g ==> !(#[trigger] m[i]).contains(a, (a + size) as u64),
        forall|i: int|
            0 <= i < m[g].pinned.len() ==> (#[trigger] m[g].pinned[i]).start + m[g].pinned[i].length
                <= u64::MAX,
    ensures
        ({
            let n = free_block(m, a, size);
            &&& n == m.update(g, n[g])
            &&& forall|x: int| #[trigger]
                within(n[g].pinned, x) == (within(m[g].pinned, x) || a <= x < a + size)
            &&& n[g].group.used == m[g].group.used.saturating_sub(size as u64)
            &&& n[g].free == m[g].free
            &&& n[g].total_free == m[g].total_free
            &&& forall|x: int| #[trigger] offered(n, x) == offered(m, x)
        }),
{
    reveal(free_block);
    let f = |x: BgV| a + size <= u64::MAX && x.contains(a, (a + size) as u64);
    assert forall|j: int| 0 <= j < g implies !f(#[trigger] m[j]) by {}
    first_idx_is(m, f, g);
    pinned_means(m[g].pinned, a, size as u64);
    let n = free_block(m, a, size);
    assert(n =~= m.update(g, n[g]));
    assert forall|x: int| #[trigger] offered(n, x) == offered(m, x) by {
        freeing_offers_nothing(m, a, size, x);
    }
}

/// The `n` bytes at `x` and the `len` bytes at `a` have nothing in common.
pub open spec fn clear_of(x: int, n: int, a: int, len: int) -> bool {
    n <= 0 || len <= 0 || x + n <= a || a + len <= x
}

/// No more is free in `n` than in `m`.
pub open spec fn no_freer(n: Seq<BgV>, m: Seq<BgV>) -> bool {
    forall|x: int| #[trigger] offered(n, x) <= offered(m, x)
}

proof fn handed_out_clear(m: Seq<BgV>, rest: Seq<BgV>, x: int, n: int, a: int, len: int)
    requires
        hands_out(m, rest, x, n),
        forall|y: int| a <= y < a + len ==> #[trigger] offered(m, y) == 0,
    ensures
        clear_of(x, n, a, len),
        no_freer(rest, m),
{
    assert forall|y: int| #[trigger] offered(rest, y) <= offered(m, y) by {}
    if !clear_of(x, n, a, len) {
        let y = if x < a {
            a
        } else {
            x
        };
        assert(lies_in(y, x, n));
        assert(offered(m, y) == 0);
        assert(offered(rest, y) == offered(m, y) - 1);
    }
}

/// A freed block waits: as long as nothing is released, no allocation of blocks or
/// of data hands out any byte of it. Each allocation leaves a map in which no more
/// is free, so that the same holds of the next.
pub proof fn freed_waits(
    m: Seq<BgV>,
    a: u64,
    size: u32,
    n: Seq<BgV>,
    flag: u64,
    needed: u64,
    al: u64,
    owner: u64,
    sector: u32,
)
    requires
        forall|y: int| a <= y < a + size ==> #[trigger] offered(m, y) == 0,
        no_freer(n, free_block(m, a, size)),
    ensures
        alloc_meta(n, size, owner) matches Some((x, rest)) ==> clear_of(
            x as int,
            size as int,
            a as int,
            size as int,
        ) && no_freer(rest, free_block(m, a, size)),
        first_fit(n, flag, needed, al) matches Some((x, rest)) ==> clear_of(
            x as int,
            needed as int,
            a as int,
            size as int,
        ) && no_freer(rest, free_block(m, a, size)),
        alloc_run(n, needed, sector) matches Some((x, len, rest)) ==> clear_of(
            x as int,
            len as int,
            a as int,
            size as int,
        ) && no_freer(rest, free_block(m, a, size)),
{
    let f = free_block(m, a, size);
    assert forall|y: int| a <= y < a + size implies #[trigger] offered(n, y) == 0 by {
        freeing_offers_nothing(m, a, size, y);
        assert(offered(n, y) <= offered(f, y));
        assert(offered(m, y) == 0);
    }
    metadata_is_handed_out(n, size, owner);
    first_fit_hands_out(n, flag, needed, al);
    run_is_handed_out(n, needed, sector);
    if let Some((x, rest)) = alloc_meta(n, size, owner) {
        handed_out_clear(n, rest, x as int, size as int, a as int, size as int);
        no_freer_follows(rest, n, f);
    }
    if let Some((x, rest)) = first_fit(n, flag, needed, al) {
        handed_out_clear(n, rest, x as int, needed as int, a as int, size as int);
        no_freer_follows(rest, n, f);
    }
    if let Some((x, len, rest)) = alloc_run(n, needed, sector) {
        handed_out_clear(n, rest, x as int, len as int, a as int, size as int);
        no_freer_follows(rest, n, f);
    }
}

proof fn no_freer_follows(l: Seq<BgV>, m: Seq<BgV>, n: Seq<BgV>)
    requires
        no_freer(l, m),
        no_freer(m, n),
    ensures
        no_freer(l, n),
{
    assert forall|x: int| #[trigger] offered(l, x) <= offered(n, x) by {
        assert(offered(m, x) <= offered(n, x));
    }
}

} // verus!
