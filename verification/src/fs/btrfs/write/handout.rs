//! What the allocator hands out was free, and is handed out once.

use vstd::prelude::*;

use crate::fs::btrfs::write::ranges::{align_up, align_up_bounds, carve, gap, FreeRange};
use crate::fs::btrfs::write::space::{
    alloc_meta, alloc_run, best_run, best_run_props, carve_bg, first_fit, fit, fit_idx, has_room,
    mark, metadata_flag, room_idx, BgV,
};
use crate::seqs::{first_idx, first_idx_props};

verus! {

/// How many of `free` hold address `a`.
pub open spec fn covering(free: Seq<FreeRange>, a: int) -> nat
    decreases free.len(),
{
    if free.len() == 0 {
        0
    } else {
        covering(free.drop_last(), a) + if free.last().holds(a) {
            1nat
        } else {
            0nat
        }
    }
}

/// How many free ranges of all groups hold address `a`.
pub open spec fn offered(m: Seq<BgV>, a: int) -> nat
    decreases m.len(),
{
    if m.len() == 0 {
        0
    } else {
        offered(m.drop_last(), a) + covering(m.last().free, a)
    }
}

/// No address is free twice.
pub open spec fn tidy(m: Seq<BgV>) -> bool {
    forall|a: int| #[trigger] offered(m, a) <= 1
}

/// Whether `a` lies in the `n` bytes at `x`.
pub open spec fn lies_in(a: int, x: int, n: int) -> bool {
    x <= a < x + n
}

pub proof fn covering_concat(p: Seq<FreeRange>, q: Seq<FreeRange>, a: int)
    ensures
        covering(p + q, a) == covering(p, a) + covering(q, a),
    decreases q.len(),
{
    if q.len() == 0 {
        assert(p + q =~= p);
    } else {
        assert((p + q).drop_last() =~= p + q.drop_last());
        covering_concat(p, q.drop_last(), a);
    }
}

pub proof fn covering_one(r: FreeRange, a: int)
    ensures
        covering(seq![r], a) == if r.holds(a) {
            1nat
        } else {
            0nat
        },
{
    assert(seq![r].drop_last() =~= Seq::<FreeRange>::empty());
    assert(covering(seq![r].drop_last(), a) == 0);
}

pub proof fn covering_gap(x: u64, y: u64, a: int)
    ensures
        covering(gap(x, y), a) == if x <= a < y {
            1nat
        } else {
            0nat
        },
{
    if x < y {
        let r = FreeRange { start: x, length: (y - x) as u64 };
        covering_one(r, a);
    }
}

proof fn covering_carved(free: Seq<FreeRange>, i: int, x: u64, y: u64, a: int)
    requires
        0 <= i < free.len(),
        free[i].start <= x <= y <= free[i].spec_end(),
    ensures
        covering(free, a) == covering(carve(free, i, x, y), a) + if x <= a < y {
            1nat
        } else {
            0nat
        },
{
    let r = free[i];
    assert(free =~= free.take(i) + seq![r] + free.skip(i + 1));
    covering_concat(free.take(i) + seq![r], free.skip(i + 1), a);
    covering_concat(free.take(i), seq![r], a);
    covering_one(r, a);
    let g = gap(r.start, x);
    let h = gap(y, r.spec_end());
    covering_concat(free.take(i) + g + h, free.skip(i + 1), a);
    covering_concat(free.take(i) + g, h, a);
    covering_concat(free.take(i), g, a);
    covering_gap(r.start, x, a);
    covering_gap(y, r.spec_end(), a);
}

proof fn offered_updated(m: Seq<BgV>, g: int, b: BgV, a: int)
    requires
        0 <= g < m.len(),
    ensures
        offered(m.update(g, b), a) + covering(m[g].free, a) == offered(m, a) + covering(b.free, a),
    decreases m.len(),
{
    let u = m.update(g, b);
    if g == m.len() - 1 {
        assert(u.drop_last() =~= m.drop_last());
    } else {
        assert(u.drop_last() =~= m.drop_last().update(g, b));
        offered_updated(m.drop_last(), g, b, a);
    }
}

/// A map once the `n` bytes at `x` were handed out of it: just these were free
/// and are no longer.
pub open spec fn hands_out(m: Seq<BgV>, rest: Seq<BgV>, x: int, n: int) -> bool {
    forall|a: int| #[trigger]
        offered(rest, a) == offered(m, a) - if lies_in(a, x, n) {
            1int
        } else {
            0
        }
}

proof fn carving_hands_out(m: Seq<BgV>, g: int, i: int, x: u64, y: u64)
    requires
        0 <= g < m.len(),
        0 <= i < m[g].free.len(),
        m[g].free[i].start <= x <= y <= m[g].free[i].spec_end(),
    ensures
        hands_out(m, m.update(g, carve_bg(m[g], i, x, y)), x as int, y - x),
{
    let b = carve_bg(m[g], i, x, y);
    assert forall|a: int| #[trigger]
        offered(m.update(g, b), a) == offered(m, a) - if lies_in(a, x as int, y - x) {
            1int
        } else {
            0
        } by {
        offered_updated(m, g, b, a);
        covering_carved(m[g].free, i, x, y, a);
    }
}

/// First fit hands out what was free, and nothing else changes.
pub proof fn first_fit_hands_out(m: Seq<BgV>, flag: u64, needed: u64, al: u64)
    ensures
        first_fit(m, flag, needed, al) matches Some((x, rest)) ==> x + needed <= u64::MAX
            && hands_out(m, rest, x as int, needed as int),
{
    let g = room_idx(m, flag, needed, al);
    first_idx_props(m, |b: BgV| has_room(b, flag, needed, al));
    if g < m.len() {
        first_idx_props(m[g].free, |r: FreeRange| fit(r, needed, al) is Some);
        let i = fit_idx(m[g].free, needed, al);
        let x = fit(m[g].free[i], needed, al)->Some_0;
        align_up_bounds(m[g].free[i].start, al);
        carving_hands_out(m, g, i, x, (x + needed) as u64);
    }
}

/// A metadata block that is handed out was free, and nothing else changes.
pub proof fn metadata_is_handed_out(m: Seq<BgV>, size: u32, owner: u64)
    ensures
        alloc_meta(m, size, owner) matches Some((x, rest)) ==> x + size <= u64::MAX && hands_out(
            m,
            rest,
            x as int,
            size as int,
        ),
{
    reveal(alloc_meta);
    first_fit_hands_out(m, metadata_flag(owner), size as u64, size as u64);
}

/// A data run that is handed out was free, and nothing else changes.
pub proof fn run_is_handed_out(m: Seq<BgV>, max_size: u64, sector: u32)
    ensures
        alloc_run(m, max_size, sector) matches Some((x, n, rest)) ==> x + n <= u64::MAX
            && hands_out(m, rest, x as int, n as int),
{
    reveal(alloc_run);
    let al = sector as u64;
    let max = (max_size / al) * al;
    if alloc_run(m, max_size, sector) is Some {
        assert(max >= 0) by (nonlinear_arith)
            requires
                max == (max_size / al) * al,
                al > 0,
        ;
        best_run_props(m, max as int, al);
        let (g, i, n) = best_run(m, max as int, al);
        let r = m[g].free[i];
        align_up_bounds(r.start, al);
        let x = align_up(r.start, al)->Some_0;
        let room = r.spec_end() - x;
        assert((room / al as int) * al <= room) by (nonlinear_arith)
            requires
                al > 0,
        ;
        carving_hands_out(m, g, i, x, (x + n) as u64);
    }
}

/// A range that is marked as allocated was free, and nothing else changes.
pub proof fn marked_is_handed_out(m: Seq<BgV>, a: u64, length: u64)
    ensures
        mark(m, a, length) matches Ok(rest) ==> hands_out(m, rest, a as int, length as int),
{
    if length > 0 && mark(m, a, length) is Ok {
        let b = (a + length) as u64;
        let g = first_idx(m, |x: BgV| x.contains(a, b));
        first_idx_props(m, |x: BgV| x.contains(a, b));
        let i = first_idx(m[g].free, |r: FreeRange| r.start <= a && b <= r.spec_end());
        first_idx_props(m[g].free, |r: FreeRange| r.start <= a && b <= r.spec_end());
        carving_hands_out(m, g, i, a, b);
    }
}

/// Where no address is free twice, what is handed out was free before and is
/// not free afterwards, and still no address is free twice.
pub proof fn handed_out_once(m: Seq<BgV>, rest: Seq<BgV>, x: int, n: int)
    requires
        tidy(m),
        hands_out(m, rest, x, n),
    ensures
        tidy(rest),
        forall|a: int| lies_in(a, x, n) ==> #[trigger] offered(m, a) == 1,
        forall|a: int| lies_in(a, x, n) ==> #[trigger] offered(rest, a) == 0,
        forall|a: int| !lies_in(a, x, n) ==> #[trigger] offered(rest, a) == offered(m, a),
{
    assert forall|a: int| lies_in(a, x, n) implies #[trigger] offered(m, a) == 1 by {
        assert(offered(rest, a) == offered(m, a) - 1);
    }
    assert forall|a: int| lies_in(a, x, n) implies #[trigger] offered(rest, a) == 0 by {
        assert(offered(m, a) <= 1);
    }
    assert forall|a: int| #[trigger] offered(rest, a) <= 1 by {
        assert(offered(m, a) <= 1);
    }
}

} // verus!
