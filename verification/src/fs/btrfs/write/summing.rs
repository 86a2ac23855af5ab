//! The checksum items of an extent, put together, are all its checksums.

use vstd::prelude::*;

use crate::fs::btrfs::tree::CsumType;
use crate::fs::btrfs::write::payload::{
    ceil_div, csum_item_limit, csum_run, csum_run_len, csum_tile, csum_tiles, sector_csum,
    sector_of,
};

verus! {

/// The payloads of items, one behind the other.
pub open spec fn joined(items: Seq<(u64, Seq<u8>)>) -> Seq<u8>
    decreases items.len(),
{
    if items.len() == 0 {
        Seq::empty()
    } else {
        joined(items.drop_last()) + items.last().1
    }
}

/// Two runs of checksums that follow on from one another are one.
proof fn runs_follow_on(t: CsumType, data: Seq<u8>, sector: int, a: int, b: int, c: int)
    requires
        a <= b <= c,
    ensures
        csum_run(t, data, sector, a, b) + csum_run(t, data, sector, b, c) == csum_run(
            t,
            data,
            sector,
            a,
            c,
        ),
    decreases c - b,
{
    let p = csum_run(t, data, sector, a, b);
    if b == c {
        assert(p + Seq::<u8>::empty() =~= p);
    } else {
        runs_follow_on(t, data, sector, a, b, c - 1);
        assert(p + csum_run(t, data, sector, b, c) =~= (p + csum_run(t, data, sector, b, c - 1))
            + sector_csum(
            t,
            sector_of(data, c - 1, sector),
        ));
    }
}

/// The number of the first checksum behind item `k`.
spec fn stop(per_item: int, nr: int, k: int) -> int {
    if k * per_item < nr {
        k * per_item
    } else {
        nr
    }
}

proof fn tiles_join(
    t: CsumType,
    data: Seq<u8>,
    sector: int,
    base: int,
    per_item: int,
    nr: int,
    k: nat,
)
    requires
        per_item > 0,
        nr >= 0,
        k > 0 ==> (k - 1) * per_item < nr,
    ensures
        joined(
            Seq::new(k, |i: int| csum_tile(t, data, sector, base, per_item, nr, i)),
        ) == csum_run(t, data, sector, 0, stop(per_item, nr, k as int)),
    decreases k,
{
    let f = |i: int| csum_tile(t, data, sector, base, per_item, nr, i);
    let s = Seq::new(k, f);
    if k == 0 {
        assert(0 * per_item == 0) by (nonlinear_arith);
    } else {
        let j = (k - 1) as nat;
        assert(s.drop_last() =~= Seq::new(j, f));
        assert(j > 0 ==> (j - 1) * per_item < nr) by (nonlinear_arith)
            requires
                j * per_item < nr,
                per_item > 0,
        ;
        tiles_join(t, data, sector, base, per_item, nr, j);
        assert(k * per_item == j * per_item + per_item && j * per_item >= 0) by (nonlinear_arith)
            requires
                k == j + 1,
                per_item > 0,
                j >= 0,
        ;
        runs_follow_on(t, data, sector, 0, j * per_item, stop(per_item, nr, k as int));
    }
}

/// The items made for an extent, put together in order, are the checksums of all
/// its sectors. Each item lies at the address of its first sector: behind the
/// extent's start by a sector for every checksum in the items before it, so that
/// the items follow on from one another. All but the last are as large as an item
/// may be, and the last holds at least one checksum.
pub proof fn items_join(
    t: CsumType,
    node_size: u32,
    sector_size: u32,
    at: u64,
    len: u64,
    data: Seq<u8>,
    k: int,
)
    requires
        sector_size > 0,
        at + len <= u64::MAX,
        csum_tiles(t, node_size, sector_size, at, len, data) is Ok,
    ensures
        ({
            let items = csum_tiles(t, node_size, sector_size, at, len, data)->Ok_0;
            let nr = ceil_div(len as int, sector_size as int);
            let limit = csum_item_limit(node_size, t.width() as int);
            let w = t.width() as int;
            &&& joined(items) == csum_run(t, data, sector_size as int, 0, nr)
            &&& 0 <= k < items.len() ==> {
                &&& joined(items.take(k)).len() as int % w == 0
                &&& items[k].0 == at + (joined(items.take(k)).len() as int / w) * sector_size
                &&& k + 1 < items.len() ==> items[k].1.len() == limit && items[k + 1].0
                    == items[k].0 + (items[k].1.len() as int / w) * sector_size
                &&& w <= items[k].1.len() <= limit
            }
        }),
{
    let s = sector_size as int;
    let w = t.width() as int;
    let limit = csum_item_limit(node_size, w);
    let per = limit / w;
    let nr = ceil_div(len as int, s);
    let f = |i: int| csum_tile(t, data, s, at as int, per, nr, i);
    let n = ceil_div(nr, per);
    let items = csum_tiles(t, node_size, sector_size, at, len, data)->Ok_0;
    assert(items == Seq::new(n as nat, f));
    vstd::arithmetic::div_mod::lemma_fundamental_div_mod(len as int, s);
    vstd::arithmetic::div_mod::lemma_mod_bound(len as int, s);
    vstd::arithmetic::div_mod::lemma_div_pos_is_pos(len as int, s);
    vstd::arithmetic::div_mod::lemma_div_pos_is_pos(limit, w);
    assert(per > 0);
    limit_is_whole(node_size, w);
    vstd::arithmetic::div_mod::lemma_fundamental_div_mod(nr, per);
    vstd::arithmetic::div_mod::lemma_mod_bound(nr, per);
    vstd::arithmetic::div_mod::lemma_div_pos_is_pos(nr, per);
    let q = nr / per;
    assert(n > 0 ==> (n - 1) * per < nr) by (nonlinear_arith)
        requires
            per > 0,
            nr == per * q + nr % per,
            0 <= nr % per < per,
            n == if nr % per == 0 {
                q
            } else {
                q + 1
            },
    ;
    assert(n * per >= nr && n >= 0) by (nonlinear_arith)
        requires
            per > 0,
            q >= 0,
            nr == per * q + nr % per,
            0 <= nr % per < per,
            n == if nr % per == 0 {
                q
            } else {
                q + 1
            },
    ;
    tiles_join(t, data, s, at as int, per, nr, n as nat);
    if 0 <= k < items.len() {
        assert(items.take(k) =~= Seq::new(k as nat, f));
        assert(k * per <= (n - 1) * per && k * per >= 0) by (nonlinear_arith)
            requires
                0 <= k <= n - 1,
                per > 0,
        ;
        assert(k > 0 ==> (k - 1) * per < nr) by (nonlinear_arith)
            requires
                k * per < nr,
                per > 0,
        ;
        tiles_join(t, data, s, at as int, per, nr, k as nat);
        csum_run_len(t, data, s, 0, k * per);
        whole_quotient(w, k * per);
        sector_lies_before(k * per, nr, len as int, s);
        let next = stop(per, nr, k + 1);
        assert((k + 1) * per == k * per + per) by (nonlinear_arith);
        csum_run_len(t, data, s, k * per, next);
        whole_quotient(w, next - k * per);
        assert(w * (next - k * per) <= w * per && w <= w * (next - k * per)) by (nonlinear_arith)
            requires
                1 <= next - k * per <= per,
                w > 0,
        ;
        if k + 1 < items.len() {
            assert((k + 1) * per <= (n - 1) * per) by (nonlinear_arith)
                requires
                    k + 1 <= n - 1,
                    per > 0,
            ;
            assert(next == (k + 1) * per);
            sector_lies_before((k + 1) * per, nr, len as int, s);
            assert(((k + 1) * per) * s == (k * per) * s + per * s) by (nonlinear_arith)
                requires
                    (k + 1) * per == k * per + per,
            ;
        }
    }
}

/// A largest item holds whole checksums.
proof fn limit_is_whole(node_size: u32, w: int)
    requires
        w > 0,
    ensures
        w * (csum_item_limit(node_size, w) / w) == csum_item_limit(node_size, w),
{
    let u = if node_size >= 156 {
        node_size - 156
    } else {
        0
    };
    let q = u / w;
    vstd::arithmetic::div_mod::lemma_div_by_multiple(q, w);
    vstd::arithmetic::mul::lemma_mul_is_commutative(q, w);
}

proof fn whole_quotient(w: int, n: int)
    requires
        w > 0,
        n >= 0,
    ensures
        (w * n) / w == n,
        (w * n) % w == 0,
{
    vstd::arithmetic::mul::lemma_mul_is_commutative(w, n);
    vstd::arithmetic::div_mod::lemma_div_by_multiple(n, w);
    vstd::arithmetic::div_mod::lemma_mod_multiples_basic(n, w);
}

/// A sector of an extent begins before the extent ends.
proof fn sector_lies_before(i: int, nr: int, total: int, s: int)
    requires
        0 <= i < nr,
        s > 0,
        total >= 0,
        nr == ceil_div(total, s),
    ensures
        0 <= i * s < total,
{
    vstd::arithmetic::div_mod::lemma_fundamental_div_mod(total, s);
    vstd::arithmetic::div_mod::lemma_mod_bound(total, s);
    let q = total / s;
    assert(i * s < total && 0 <= i * s) by (nonlinear_arith)
        requires
            s > 0,
            0 <= i,
            total == s * q + total % s,
            0 <= total % s,
            i < q || (i == q && total % s > 0),
    ;
}

} // verus!
