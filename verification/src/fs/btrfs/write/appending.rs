//! Laying data out piece by piece comes to the same as laying it out at once:
//! both come to adding one byte after the other.

use vstd::prelude::*;

use crate::fs::btrfs::crc32c::crc_of;
use crate::fs::btrfs::write::extent_tree::cap64;
use crate::fs::btrfs::write::pieces::{
    fill_tail, lay_out, lay_rest, lay_runs, lay_sectors, least, sector_sums, sector_with,
    tail_room, LayoutV,
};
use crate::fs::btrfs::write::placing::runs_sum;

verus! {

/// A layout with one more byte, which goes to `at`.
pub open spec fn put_byte(p: LayoutV, at: u64, b: u8, sector: int) -> LayoutV {
    let t = p.tail.push(b);
    let fresh = p.tail.len() == 0;
    let first = if !fresh && p.sums.len() > 0 {
        p.sums.last().0
    } else {
        at
    };
    let before = if !fresh && p.sums.len() > 0 {
        p.sums.drop_last()
    } else {
        p.sums
    };
    LayoutV {
        writes: p.writes.push(
            (
                at,
                if fresh {
                    sector_with(seq![b], sector)
                } else {
                    seq![b]
                },
            ),
        ),
        sums: before.push((first, crc_of(sector_with(t, sector)))),
        tail: if t.len() == sector {
            Seq::empty()
        } else {
            t
        },
    }
}

/// A layout with the bytes of `d` added, the first of which is byte `from` of
/// the file; byte `x` of the file goes to `addr(x)`.
pub open spec fn put_bytes(
    p: LayoutV,
    addr: spec_fn(int) -> u64,
    from: int,
    d: Seq<u8>,
    sector: int,
) -> LayoutV
    decreases d.len(),
{
    if d.len() == 0 {
        p
    } else {
        put_byte(
            put_bytes(p, addr, from, d.drop_last(), sector),
            addr(from + d.len() - 1),
            d.last(),
            sector,
        )
    }
}

/// What the last of `writes` that reaches the address `x` puts there.
pub open spec fn last_at(writes: Seq<(u64, Seq<u8>)>, x: int) -> Option<u8>
    decreases writes.len(),
{
    if writes.len() == 0 {
        None
    } else {
        let (at, d) = writes.last();
        if at <= x < at + d.len() {
            Some(d[x - at])
        } else {
            last_at(writes.drop_last(), x)
        }
    }
}

/// Two layouts with the same checksums and the same unfinished sector, whose
/// writes leave the same behind.
pub open spec fn same_layout(p: LayoutV, q: LayoutV) -> bool {
    &&& p.sums == q.sums
    &&& p.tail == q.tail
    &&& forall|x: int| #[trigger] last_at(p.writes, x) == last_at(q.writes, x)
}

/// The last checksum is that of the unfinished sector, if there is one.
pub open spec fn in_step(p: LayoutV, sector: int) -> bool {
    &&& p.tail.len() < sector
    &&& p.tail.len() > 0 ==> p.sums.len() > 0 && p.sums.last().1 == crc_of(
        sector_with(p.tail, sector),
    )
}

proof fn last_at_pushed(writes: Seq<(u64, Seq<u8>)>, at: u64, d: Seq<u8>, x: int)
    ensures
        last_at(writes.push((at, d)), x) == if at <= x < at + d.len() {
            Some(d[x - at])
        } else {
            last_at(writes, x)
        },
{
    assert(writes.push((at, d)).drop_last() =~= writes);
}

/// Adding bytes in two parts is adding them at once.
pub proof fn put_in_parts(
    p: LayoutV,
    addr: spec_fn(int) -> u64,
    from: int,
    a: Seq<u8>,
    b: Seq<u8>,
    sector: int,
)
    ensures
        put_bytes(p, addr, from, a + b, sector) == put_bytes(
            put_bytes(p, addr, from, a, sector),
            addr,
            from + a.len(),
            b,
            sector,
        ),
    decreases b.len(),
{
    if b.len() == 0 {
        assert(a + b =~= a);
    } else {
        assert((a + b).drop_last() =~= a + b.drop_last());
        put_in_parts(p, addr, from, a, b.drop_last(), sector);
    }
}

/// Adding the same bytes to layouts that are the same leaves them the same.
proof fn put_alike(
    p: LayoutV,
    q: LayoutV,
    addr: spec_fn(int) -> u64,
    from: int,
    d: Seq<u8>,
    sector: int,
)
    requires
        same_layout(p, q),
    ensures
        same_layout(put_bytes(p, addr, from, d, sector), put_bytes(q, addr, from, d, sector)),
    decreases d.len(),
{
    if d.len() > 0 {
        put_alike(p, q, addr, from, d.drop_last(), sector);
        let p1 = put_bytes(p, addr, from, d.drop_last(), sector);
        let q1 = put_bytes(q, addr, from, d.drop_last(), sector);
        let p2 = put_bytes(p, addr, from, d, sector);
        let q2 = put_bytes(q, addr, from, d, sector);
        let at = addr(from + d.len() - 1);
        let w = if p1.tail.len() == 0 {
            sector_with(seq![d.last()], sector)
        } else {
            seq![d.last()]
        };
        assert forall|x: int| #[trigger] last_at(p2.writes, x) == last_at(q2.writes, x) by {
            last_at_pushed(p1.writes, at, w, x);
            last_at_pushed(q1.writes, at, w, x);
            assert(last_at(p1.writes, x) == last_at(q1.writes, x));
        }
    }
}

/// Adding bytes keeps a layout in step.
pub proof fn put_keeps_step(
    p: LayoutV,
    addr: spec_fn(int) -> u64,
    from: int,
    d: Seq<u8>,
    sector: int,
)
    requires
        in_step(p, sector),
    ensures
        in_step(put_bytes(p, addr, from, d, sector), sector),
    decreases d.len(),
{
    if d.len() > 0 {
        put_keeps_step(p, addr, from, d.drop_last(), sector);
    }
}

/// The checksums before that of the unfinished sector, and where that begins.
spec fn open_sums(p: LayoutV, at: u64) -> (Seq<(u64, u32)>, u64) {
    if p.tail.len() > 0 && p.sums.len() > 0 {
        (p.sums.drop_last(), p.sums.last().0)
    } else {
        (p.sums, at)
    }
}

/// Adding bytes that end in the sector they begin in.
proof fn put_in_sector(
    p: LayoutV,
    addr: spec_fn(int) -> u64,
    from: int,
    at: u64,
    d: Seq<u8>,
    sector: int,
)
    requires
        0 < d.len(),
        p.tail.len() + d.len() <= sector,
        p.tail.len() < sector,
        forall|i: int| 0 <= i < d.len() ==> #[trigger] addr(from + i) == at + i,
    ensures
        ({
            let q = put_bytes(p, addr, from, d, sector);
            let t = p.tail + d;
            &&& q.sums == open_sums(p, at).0.push(
                (open_sums(p, at).1, crc_of(sector_with(t, sector))),
            )
            &&& q.tail == if t.len() == sector {
                Seq::<u8>::empty()
            } else {
                t
            }
            &&& forall|x: int| #[trigger]
                last_at(q.writes, x) == if p.tail.len() == 0 {
                    if at <= x < at + sector {
                        Some(sector_with(d, sector)[x - at])
                    } else {
                        last_at(p.writes, x)
                    }
                } else {
                    if at <= x < at + d.len() {
                        Some(d[x - at])
                    } else {
                        last_at(p.writes, x)
                    }
                }
        }),
    decreases d.len(),
{
    let q = put_bytes(p, addr, from, d, sector);
    let front = d.drop_last();
    let b = d.last();
    let q0 = put_bytes(p, addr, from, front, sector);
    let last = addr(from + d.len() - 1);
    assert(last == at + (d.len() - 1));
    let t = p.tail + d;
    assert((p.tail + front).push(b) =~= t);
    if front.len() == 0 {
        assert(q0 == p);
        assert(d =~= seq![b]);
        assert(p.tail.push(b) =~= t);
        let w = if p.tail.len() == 0 {
            sector_with(seq![b], sector)
        } else {
            seq![b]
        };
        assert forall|x: int| #[trigger]
            last_at(q.writes, x) == if p.tail.len() == 0 {
                if at <= x < at + sector {
                    Some(sector_with(d, sector)[x - at])
                } else {
                    last_at(p.writes, x)
                }
            } else {
                if at <= x < at + d.len() {
                    Some(d[x - at])
                } else {
                    last_at(p.writes, x)
                }
            } by {
            last_at_pushed(p.writes, at, w, x);
        }
    } else {
        assert forall|i: int| 0 <= i < front.len() implies #[trigger] addr(from + i) == at + i by {}
        put_in_sector(p, addr, from, at, front, sector);
        assert(q0.tail == p.tail + front);
        let os = open_sums(p, at);
        assert(q0.sums.drop_last() =~= os.0);
        assert(q0.sums.last().0 == os.1);
        assert forall|x: int| #[trigger]
            last_at(q.writes, x) == if p.tail.len() == 0 {
                if at <= x < at + sector {
                    Some(sector_with(d, sector)[x - at])
                } else {
                    last_at(p.writes, x)
                }
            } else {
                if at <= x < at + d.len() {
                    Some(d[x - at])
                } else {
                    last_at(p.writes, x)
                }
            } by {
            last_at_pushed(q0.writes, last, seq![b], x);
            assert(last_at(q0.writes, x) == if p.tail.len() == 0 {
                if at <= x < at + sector {
                    Some(sector_with(front, sector)[x - at])
                } else {
                    last_at(p.writes, x)
                }
            } else {
                if at <= x < at + front.len() {
                    Some(front[x - at])
                } else {
                    last_at(p.writes, x)
                }
            });
        }
    }
}

/// Filling up the unfinished sector is adding the bytes that go there.
proof fn fill_is_put(
    p: LayoutV,
    addr: spec_fn(int) -> u64,
    from: int,
    at: u64,
    d: Seq<u8>,
    sector: int,
)
    requires
        sector > 0,
        in_step(p, sector),
        forall|i: int| 0 <= i < d.len() ==> #[trigger] addr(from + i) == at + i,
    ensures
        ({
            let k = tail_room(p, d, sector);
            &&& 0 <= k <= d.len()
            &&& same_layout(
                fill_tail(p, at, d, sector),
                put_bytes(p, addr, from, d.take(k), sector),
            )
            &&& k < d.len() ==> fill_tail(p, at, d, sector).tail.len() == 0
        }),
{
    let k = tail_room(p, d, sector);
    let e = d.take(k);
    let f = fill_tail(p, at, d, sector);
    let q = put_bytes(p, addr, from, e, sector);
    if p.tail.len() > 0 {
        assert forall|x: int| #[trigger] last_at(f.writes, x) == if at <= x < at + e.len() {
            Some(e[x - at])
        } else {
            last_at(p.writes, x)
        } by {
            last_at_pushed(p.writes, at, e, x);
        }
        if k > 0 {
            assert forall|i: int| 0 <= i < e.len() implies #[trigger] addr(from + i) == at + i by {}
            put_in_sector(p, addr, from, at, e, sector);
            assert forall|x: int| #[trigger] last_at(f.writes, x) == last_at(q.writes, x) by {
                assert(last_at(q.writes, x) == if at <= x < at + e.len() {
                    Some(e[x - at])
                } else {
                    last_at(p.writes, x)
                });
            }
        } else {
            assert(e =~= Seq::<u8>::empty());
            assert(p.tail + e =~= p.tail);
            assert(f.sums =~= p.sums);
        }
    } else {
        assert(e =~= Seq::<u8>::empty());
    }
}

/// Laying out whole sectors is adding their bytes.
proof fn sectors_are_put(
    p: LayoutV,
    addr: spec_fn(int) -> u64,
    from: int,
    at: u64,
    d: Seq<u8>,
    sector: int,
    n: nat,
)
    requires
        sector > 0,
        p.tail.len() == 0,
        n * sector <= d.len(),
        at + d.len() <= u64::MAX,
        forall|i: int| 0 <= i < d.len() ==> #[trigger] addr(from + i) == at + i,
    ensures
        ({
            let q = put_bytes(p, addr, from, d.take(n * sector), sector);
            &&& q.sums == p.sums + sector_sums(at, d, sector, n)
            &&& q.tail == Seq::<u8>::empty()
            &&& forall|x: int| #[trigger]
                last_at(q.writes, x) == if at <= x < at + n * sector {
                    Some(d[x - at])
                } else {
                    last_at(p.writes, x)
                }
        }),
    decreases n,
{
    let q = put_bytes(p, addr, from, d.take(n * sector), sector);
    if n == 0 {
        assert(n * sector == 0) by (nonlinear_arith)
            requires
                n == 0,
        ;
        assert(d.take(0) =~= Seq::<u8>::empty());
        assert(p.tail =~= Seq::<u8>::empty());
        assert(p.sums + sector_sums(at, d, sector, 0) =~= p.sums);
    } else {
        let m = (n - 1) as nat;
        let o = m * sector;
        assert(n * sector == o + sector && o >= 0) by (nonlinear_arith)
            requires
                n == m + 1,
                o == m * sector,
                sector > 0,
                m >= 0,
        ;
        sectors_are_put(p, addr, from, at, d, sector, m);
        let q0 = put_bytes(p, addr, from, d.take(o), sector);
        let one = d.subrange(o, o + sector);
        assert(d.take(n * sector) =~= d.take(o) + one);
        put_in_parts(p, addr, from, d.take(o), one, sector);
        let here = (at + o) as u64;
        assert forall|i: int| 0 <= i < one.len() implies #[trigger] addr(from + o + i) == here + i by {
            assert(addr(from + (o + i)) == at + (o + i));
        }
        put_in_sector(q0, addr, from + o, here, one, sector);
        assert(q0.tail + one =~= one);
        assert(sector_with(one, sector) =~= one);
        assert(cap64(at + o) == here);
        assert(q.sums =~= p.sums + sector_sums(at, d, sector, n));
        assert forall|x: int| #[trigger]
            last_at(q.writes, x) == if at <= x < at + n * sector {
                Some(d[x - at])
            } else {
                last_at(p.writes, x)
            } by {
            assert(last_at(q.writes, x) == if here <= x < here + sector {
                Some(sector_with(one, sector)[x - here])
            } else {
                last_at(q0.writes, x)
            });
            assert(last_at(q0.writes, x) == if at <= x < at + o {
                Some(d[x - at])
            } else {
                last_at(p.writes, x)
            });
        }
    }
}

/// Laying out whole sectors and an unfinished one behind a finished one is adding
/// their bytes.
proof fn body_is_put(
    a: LayoutV,
    p: LayoutV,
    addr: spec_fn(int) -> u64,
    from: int,
    at: u64,
    e: Seq<u8>,
    sector: int,
    m: int,
)
    requires
        sector > 0,
        same_layout(a, p),
        p.tail.len() == 0,
        at + e.len() <= u64::MAX,
        m == e.len() as int / sector * sector,
        forall|i: int| 0 <= i < e.len() ==> #[trigger] addr(from + i) == at + i,
    ensures
        0 <= m <= e.len(),
        same_layout(
            lay_rest(lay_sectors(a, at, e, sector), cap64(at + m), e.skip(m), sector),
            put_bytes(p, addr, from, e, sector),
        ),
{
    let n = e.len() as int / sector;
    vstd::arithmetic::div_mod::lemma_fundamental_div_mod(e.len() as int, sector);
    vstd::arithmetic::mul::lemma_mul_is_commutative(sector, n);
    vstd::arithmetic::div_mod::lemma_mod_bound(e.len() as int, sector);
    vstd::arithmetic::div_mod::lemma_div_pos_is_pos(e.len() as int, sector);
    assert(m >= 0) by (nonlinear_arith)
        requires
            m == n * sector,
            n >= 0,
            sector > 0,
    ;
    sectors_are_put(p, addr, from, at, e, sector, n as nat);
    let b = lay_sectors(a, at, e, sector);
    let pb = put_bytes(p, addr, from, e.take(m), sector);
    assert(same_layout(b, pb)) by {
        if n == 0 {
            assert(m == 0);
            assert(e.take(0) =~= Seq::<u8>::empty());
        } else {
            assert forall|x: int| #[trigger] last_at(b.writes, x) == last_at(pb.writes, x) by {
                last_at_pushed(a.writes, at, e.take(m), x);
                assert(last_at(a.writes, x) == last_at(p.writes, x));
            }
            assert(b.tail =~= pb.tail);
        }
    }
    let f = e.skip(m);
    assert(e =~= e.take(m) + f);
    put_in_parts(p, addr, from, e.take(m), f, sector);
    let there = cap64(at + m);
    assert forall|i: int| 0 <= i < f.len() implies #[trigger] addr(from + m + i) == there + i by {
        assert(addr(from + (m + i)) == at + (m + i));
    }
    rest_is_put(b, pb, addr, from + m, there, f, sector);
}

/// Laying out an unfinished sector behind a finished one is adding its bytes.
proof fn rest_is_put(
    b: LayoutV,
    p: LayoutV,
    addr: spec_fn(int) -> u64,
    from: int,
    at: u64,
    f: Seq<u8>,
    sector: int,
)
    requires
        f.len() < sector,
        same_layout(b, p),
        p.tail.len() == 0,
        forall|i: int| 0 <= i < f.len() ==> #[trigger] addr(from + i) == at + i,
    ensures
        same_layout(lay_rest(b, at, f, sector), put_bytes(p, addr, from, f, sector)),
{
    let c = lay_rest(b, at, f, sector);
    let pc = put_bytes(p, addr, from, f, sector);
    if f.len() > 0 {
        put_in_sector(p, addr, from, at, f, sector);
        assert(p.tail + f =~= f);
        assert forall|x: int| #[trigger] last_at(c.writes, x) == last_at(pc.writes, x) by {
            last_at_pushed(b.writes, at, sector_with(f, sector), x);
            assert(last_at(b.writes, x) == last_at(p.writes, x));
        }
    }
}

/// Laying data out is adding its bytes.
proof fn lay_is_put(
    p: LayoutV,
    addr: spec_fn(int) -> u64,
    from: int,
    at: u64,
    d: Seq<u8>,
    sector: int,
)
    requires
        sector > 0,
        in_step(p, sector),
        at + d.len() <= u64::MAX,
        forall|i: int| 0 <= i < d.len() ==> #[trigger] addr(from + i) == at + i,
    ensures
        same_layout(lay_out(p, at, d, sector), put_bytes(p, addr, from, d, sector)),
{
    let k = tail_room(p, d, sector);
    fill_is_put(p, addr, from, at, d, sector);
    let a = fill_tail(p, at, d, sector);
    let pa = put_bytes(p, addr, from, d.take(k), sector);
    let e = d.skip(k);
    let m = e.len() as int / sector * sector;
    assert(d =~= d.take(k) + e);
    put_in_parts(p, addr, from, d.take(k), e, sector);
    if k == d.len() {
        assert(e.len() == 0);
        vstd::arithmetic::div_mod::lemma_div_basics(sector);
        assert(0 * sector == 0) by (nonlinear_arith);
        assert(m == 0);
        assert(e.skip(m) =~= Seq::<u8>::empty());
        assert(lay_out(p, at, d, sector) == a);
    } else {
        let here = cap64(at + k);
        assert forall|i: int| 0 <= i < e.len() implies #[trigger] addr(from + k + i) == here + i by {
            assert(addr(from + (k + i)) == at + (k + i));
        }
        body_is_put(a, pa, addr, from + k, here, e, sector, m);
        assert(cap64(at + k + m) == cap64(here + m));
    }
}

/// Where byte `x` of a file goes.
pub open spec fn address_of(runs: Seq<(u64, u64)>, x: int) -> u64
    decreases runs.len(),
{
    if runs.len() == 0 {
        0
    } else if x < runs[0].1 {
        (runs[0].0 + x) as u64
    } else {
        address_of(runs.skip(1), x - runs[0].1)
    }
}

/// No run reaches the end of the address space.
pub open spec fn runs_within(runs: Seq<(u64, u64)>) -> bool {
    forall|i: int| 0 <= i < runs.len() ==> (#[trigger] runs[i]).0 + runs[i].1 <= u64::MAX
}

/// The bytes of all runs are those of the first and of the others.
pub proof fn runs_sum_front(runs: Seq<(u64, u64)>)
    requires
        runs.len() > 0,
    ensures
        runs_sum(runs) == runs[0].1 + runs_sum(runs.skip(1)),
        runs_sum(runs.skip(1)) >= 0,
    decreases runs.len(),
{
    let rest = runs.skip(1);
    if runs.len() == 1 {
        assert(runs.drop_last() =~= Seq::<(u64, u64)>::empty());
        assert(rest =~= Seq::<(u64, u64)>::empty());
    } else {
        runs_sum_front(runs.drop_last());
        assert(runs.drop_last().skip(1) =~= rest.drop_last());
    }
}

/// Laying data out over runs is adding its bytes.
proof fn runs_are_put(
    p: LayoutV,
    runs: Seq<(u64, u64)>,
    addr: spec_fn(int) -> u64,
    cursor: u64,
    written: u64,
    d: Seq<u8>,
    sector: int,
)
    requires
        sector > 0,
        in_step(p, sector),
        runs_within(runs),
        cursor <= written,
        written + d.len() <= cursor + runs_sum(runs),
        cursor + runs_sum(runs) <= u64::MAX,
        forall|x: int|
            cursor <= x < cursor + runs_sum(runs) ==> #[trigger] addr(x) == address_of(
                runs,
                x - cursor,
            ),
    ensures
        same_layout(
            lay_runs(p, runs, cursor, written, d, sector),
            put_bytes(p, addr, written as int, d, sector),
        ),
    decreases runs.len(),
{
    if runs.len() > 0 {
        let (at, len) = runs[0];
        let rest = runs.skip(1);
        runs_sum_front(runs);
        let end = cap64(cursor + len);
        assert(end == cursor + len);
        assert(runs_within(rest)) by {
            assert forall|i: int| 0 <= i < rest.len() implies (#[trigger] rest[i]).0 + rest[i].1
                <= u64::MAX by {
                assert(rest[i] == runs[i + 1]);
            }
        }
        assert forall|x: int| end <= x < end + runs_sum(rest) implies #[trigger] addr(x)
            == address_of(rest, x - end) by {
            assert(addr(x) == address_of(runs, x - cursor));
        }
        assert(at + len <= u64::MAX) by {
            assert(runs[0].0 + runs[0].1 <= u64::MAX);
        }
        if written >= end {
            runs_are_put(p, rest, addr, end, written, d, sector);
        } else {
            let off = written.saturating_sub(cursor);
            assert(off == written - cursor);
            let take = least(len - off, d.len() as int);
            let here = cap64(at + off);
            let part = d.take(take);
            assert forall|i: int| 0 <= i < part.len() implies #[trigger] addr(written + i) == here
                + i by {
                assert(addr(written + i) == address_of(runs, written + i - cursor));
            }
            lay_is_put(p, addr, written as int, here, part, sector);
            let q = lay_out(p, here, part, sector);
            if take == d.len() {
                assert(part =~= d);
            } else {
                let left = d.skip(take);
                let q1 = put_bytes(p, addr, written as int, part, sector);
                assert(d =~= part + left);
                put_in_parts(p, addr, written as int, part, left, sector);
                put_keeps_step(p, addr, written as int, part, sector);
                let next = cap64(written + take);
                assert(next == written + take);
                runs_are_put(q, rest, addr, end, next, left, sector);
                put_alike(q, q1, addr, next as int, left, sector);
                let x = lay_runs(q, rest, end, next, left, sector);
                let y = put_bytes(q, addr, next as int, left, sector);
                let z = put_bytes(q1, addr, next as int, left, sector);
                assert(same_layout(x, z)) by {
                    assert forall|w: int| #[trigger] last_at(x.writes, w) == last_at(z.writes, w) by {
                        assert(last_at(x.writes, w) == last_at(y.writes, w));
                        assert(last_at(y.writes, w) == last_at(z.writes, w));
                    }
                }
            }
        }
    } else {
        assert(d.len() == 0);
    }
}

/// Laying data out over runs from the first of them on is adding its bytes.
pub proof fn laying_is_putting(
    p: LayoutV,
    runs: Seq<(u64, u64)>,
    written: u64,
    d: Seq<u8>,
    sector: int,
)
    requires
        sector > 0,
        in_step(p, sector),
        runs_within(runs),
        written + d.len() <= runs_sum(runs) <= u64::MAX,
    ensures
        same_layout(
            lay_runs(p, runs, 0, written, d, sector),
            put_bytes(p, |x: int| address_of(runs, x), written as int, d, sector),
        ),
{
    runs_are_put(p, runs, |x: int| address_of(runs, x), 0, written, d, sector);
}

/// Writes that came before stay in front.
proof fn put_behind(
    p: LayoutV,
    addr: spec_fn(int) -> u64,
    from: int,
    d: Seq<u8>,
    sector: int,
    before: Seq<(u64, Seq<u8>)>,
)
    ensures
        ({
            let q = put_bytes(p, addr, from, d, sector);
            put_bytes(
                LayoutV { writes: before + p.writes, ..p },
                addr,
                from,
                d,
                sector,
            ) == (LayoutV { writes: before + q.writes, ..q })
        }),
    decreases d.len(),
{
    if d.len() > 0 {
        put_behind(p, addr, from, d.drop_last(), sector, before);
        let q0 = put_bytes(p, addr, from, d.drop_last(), sector);
        let q = put_bytes(p, addr, from, d, sector);
        assert(before + q.writes =~= (before + q0.writes).push(q.writes.last()));
    }
}

pub proof fn last_at_concat(a: Seq<(u64, Seq<u8>)>, b: Seq<(u64, Seq<u8>)>, x: int)
    ensures
        last_at(a + b, x) == match last_at(b, x) {
            Some(v) => Some(v),
            None => last_at(a, x),
        },
    decreases b.len(),
{
    if b.len() == 0 {
        assert(a + b =~= a);
    } else {
        assert((a + b).drop_last() =~= a + b.drop_last());
        last_at_concat(a, b.drop_last(), x);
    }
}

/// Laying data out in two parts leaves the checksums and the unfinished sector
/// that laying it out at once leaves, and its writes leave the same behind.
pub proof fn laid_in_parts(
    p: LayoutV,
    runs: Seq<(u64, u64)>,
    written: u64,
    a: Seq<u8>,
    b: Seq<u8>,
    sector: int,
)
    requires
        sector > 0,
        p.writes.len() == 0,
        in_step(p, sector),
        runs_within(runs),
        written + a.len() + b.len() <= runs_sum(runs) <= u64::MAX,
    ensures
        ({
            let one = lay_runs(p, runs, 0, written, a + b, sector);
            let x = lay_runs(p, runs, 0, written, a, sector);
            let next = (written + a.len()) as u64;
            let y = lay_runs(
                LayoutV { writes: Seq::empty(), ..x },
                runs,
                0,
                next,
                b,
                sector,
            );
            &&& one.sums == y.sums
            &&& one.tail == y.tail
            &&& in_step(x, sector)
            &&& in_step(y, sector)
            &&& forall|l: int| #[trigger]
                last_at(one.writes, l) == match last_at(y.writes, l) {
                    Some(v) => Some(v),
                    None => last_at(x.writes, l),
                }
        }),
{
    let addr = |x: int| address_of(runs, x);
    let one = lay_runs(p, runs, 0, written, a + b, sector);
    let x = lay_runs(p, runs, 0, written, a, sector);
    let next = (written + a.len()) as u64;
    let x0 = LayoutV { writes: Seq::empty(), ..x };
    let y = lay_runs(x0, runs, 0, next, b, sector);
    laying_is_putting(p, runs, written, a + b, sector);
    laying_is_putting(p, runs, written, a, sector);
    put_keeps_step(p, addr, written as int, a, sector);
    let px = put_bytes(p, addr, written as int, a, sector);
    assert(in_step(x, sector));
    laying_is_putting(x0, runs, next, b, sector);
    put_keeps_step(x0, addr, next as int, b, sector);
    put_in_parts(p, addr, written as int, a, b, sector);
    let px0 = LayoutV { writes: Seq::empty(), ..px };
    assert(px0 == x0);
    let py = put_bytes(px0, addr, next as int, b, sector);
    put_behind(px0, addr, next as int, b, sector, px.writes);
    assert(px.writes + px0.writes =~= px.writes);
    let both = put_bytes(px, addr, next as int, b, sector);
    assert(both == (LayoutV { writes: px.writes + py.writes, ..py }));
    assert forall|l: int| #[trigger] last_at(one.writes, l) == match last_at(y.writes, l) {
        Some(v) => Some(v),
        None => last_at(x.writes, l),
    } by {
        assert(last_at(one.writes, l) == last_at(both.writes, l));
        last_at_concat(px.writes, py.writes, l);
        assert(last_at(y.writes, l) == last_at(py.writes, l));
        assert(last_at(x.writes, l) == last_at(px.writes, l));
    }
}

} // verus!
