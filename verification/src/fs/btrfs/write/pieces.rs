//! Laying file data out in sectors, and writing it.

use vstd::prelude::*;

use crate::bytes::{append_bytes, append_zeros, copy_bytes, copy_range, zeros};
use crate::device::{DeviceOp, WriteAt};
use crate::error::{Outcome, Result};
use crate::fs::btrfs::chunk::{locate, locate_reaches, ChunkV};
use crate::fs::btrfs::crc32c::{crc32c, crc_of};
use crate::fs::btrfs::volume::Btrfs;
use crate::fs::btrfs::write::commit::{
    copies, plays, plays_error, plays_fault, plays_nothing, plays_then, put_copies,
};
use crate::fs::btrfs::write::extent_tree::cap64;
use crate::fs::btrfs::write::payload::pairs_of;

verus! {

/// Write `data` to every copy of the logical addresses from `at` on.
pub open spec fn span_script(chunks: Seq<ChunkV>, at: u64, data: Seq<u8>) -> Seq<Outcome<DeviceOp>>
    decreases data.len(),
    via span_script_shrinks
{
    if data.len() == 0 {
        Seq::empty()
    } else {
        match locate(chunks, at) {
            Err(e) => seq![Err(e)],
            Ok((places, run)) => {
                let take = if run < data.len() {
                    run as int
                } else {
                    data.len() as int
                };
                copies(places, data.take(take)) + span_script(
                    chunks,
                    cap64(at + take),
                    data.skip(take),
                )
            },
        }
    }
}

#[via_fn]
proof fn span_script_shrinks(chunks: Seq<ChunkV>, at: u64, data: Seq<u8>) {
    locate_reaches(chunks, at);
}

/// Write several spans.
pub open spec fn spans_script(chunks: Seq<ChunkV>, writes: Seq<(u64, Seq<u8>)>) -> Seq<
    Outcome<DeviceOp>,
>
    decreases writes.len(),
{
    if writes.len() == 0 {
        Seq::empty()
    } else {
        spans_script(chunks, writes.drop_last()) + span_script(
            chunks,
            writes.last().0,
            writes.last().1,
        )
    }
}

fn write_span<D: WriteAt>(fs: &mut Btrfs<D>, at: u64, data: &Vec<u8>) -> (r: Result<()>)
    ensures
        plays(
            old(fs).state(),
            final(fs).state(),
            r,
            span_script(old(fs)@.chunks, at, data@),
        ),
{
    let ghost v = fs.state();
    let ghost chunks = v.fs.chunks;
    let ghost whole = span_script(chunks, at, data@);
    let n: usize = data.len();
    let mut done: usize = 0;
    let mut here: u64 = at;
    let ghost mut head: Seq<Outcome<DeviceOp>> = Seq::empty();
    proof {
        plays_nothing(v);
        assert(data@.skip(0) =~= data@);
        assert(head + whole =~= whole);
    }
    while done < n
        invariant
            done <= n,
            n == data@.len(),
            v == old(fs).state(),
            chunks == v.fs.chunks,
            whole == span_script(chunks, at, data@),
            plays(v, fs.state(), Ok(()), head),
            whole == head + span_script(chunks, here, data@.skip(done as int)),
        decreases n - done,
    {
        let ghost rest = data@.skip(done as int);
        let ghost tail = span_script(chunks, here, rest);
        proof {
            locate_reaches(chunks, here);
        }
        let (_, run) = match fs.chunk_map().map(here) {
            Ok(x) => x,
            Err(e) => {
                proof {
                    plays_error(v, fs.state(), head, e);
                    assert(head + seq![Err(e@)] == whole);
                }
                return Err(e);
            },
        };
        let places = match fs.chunk_map().map_all_stripes(here) {
            Ok(x) => x,
            Err(e) => {
                return Err(e);
            },
        };
        let left: usize = n - done;
        let take: usize = if run < left as u64 {
            run as usize
        } else {
            left
        };
        let part = copy_range(data.as_slice(), done, done + take);
        let ghost w = fs.state();
        let ghost one = copies(places@, part@);
        let ghost after = span_script(chunks, cap64(here + take), rest.skip(take as int));
        proof {
            assert(part@ =~= rest.take(take as int));
            assert(tail == one + after);
            assert(rest.skip(take as int) =~= data@.skip(done + take));
            assert(head + (one + after) =~= (head + one) + after);
        }
        let r = put_copies(fs, &places, part.as_slice());
        proof {
            plays_then(v, w, fs.state(), r, head, one);
            if r is Err {
                plays_fault(v, fs.state(), r->Err_0, head + one, after);
            }
            head = head + one;
        }
        r?;
        here = here.saturating_add(take as u64);
        done += take;
    }
    proof {
        assert(data@.skip(done as int) =~= Seq::<u8>::empty());
        assert(head + Seq::<Outcome<DeviceOp>>::empty() =~= head);
    }
    Ok(())
}

spec fn spans_rest(chunks: Seq<ChunkV>, writes: Seq<(u64, Seq<u8>)>, n: int) -> Seq<
    Outcome<DeviceOp>,
> {
    spans_script(chunks, writes).skip(spans_script(chunks, writes.take(n)).len() as int)
}

proof fn spans_script_split(chunks: Seq<ChunkV>, writes: Seq<(u64, Seq<u8>)>, n: int)
    requires
        0 <= n <= writes.len(),
    ensures
        spans_script(chunks, writes) == spans_script(chunks, writes.take(n)) + spans_rest(
            chunks,
            writes,
            n,
        ),
    decreases writes.len(),
{
    let head = spans_script(chunks, writes.take(n));
    let whole = spans_script(chunks, writes);
    if n == writes.len() {
        assert(writes.take(n) =~= writes);
    } else {
        spans_script_split(chunks, writes.drop_last(), n);
        assert(writes.drop_last().take(n) =~= writes.take(n));
        let mid = spans_script(chunks, writes.drop_last());
        assert(mid == head + spans_rest(chunks, writes.drop_last(), n));
        assert forall|i: int| 0 <= i < head.len() implies whole[i] == head[i] by {
            assert(whole[i] == mid[i]);
        }
    }
    assert(whole =~= head + spans_rest(chunks, writes, n));
}

/// Write several spans.
pub fn write_spans<D: WriteAt>(fs: &mut Btrfs<D>, writes: &Vec<(u64, Vec<u8>)>) -> (r: Result<()>)
    ensures
        plays(
            old(fs).state(),
            final(fs).state(),
            r,
            spans_script(old(fs)@.chunks, pairs_of(writes@)),
        ),
{
    let ghost v = fs.state();
    let ghost all = pairs_of(writes@);
    let n: usize = writes.len();
    let mut i: usize = 0;
    proof {
        plays_nothing(v);
        assert(all.take(0) =~= Seq::<(u64, Seq<u8>)>::empty());
    }
    while i < n
        invariant
            i <= n,
            n == writes@.len(),
            v == old(fs).state(),
            all == pairs_of(writes@),
            plays(v, fs.state(), Ok(()), spans_script(v.fs.chunks, all.take(i as int))),
        decreases n - i,
    {
        let ghost w = fs.state();
        let ghost head = spans_script(v.fs.chunks, all.take(i as int));
        let ghost one = span_script(v.fs.chunks, all[i as int].0, all[i as int].1);
        assert(all[i as int] == (writes@[i as int].0, writes@[i as int].1@));
        let r = write_span(fs, writes[i].0, &writes[i].1);
        proof {
            plays_then(v, w, fs.state(), r, head, one);
            assert(all.take(i + 1).drop_last() =~= all.take(i as int));
            assert(spans_script(v.fs.chunks, all.take(i + 1)) == head + one);
            if r is Err {
                spans_script_split(v.fs.chunks, all, i + 1);
                plays_fault(
                    v,
                    fs.state(),
                    r->Err_0,
                    head + one,
                    spans_rest(v.fs.chunks, all, i + 1),
                );
            }
        }
        r?;
        i += 1;
    }
    assert(all.take(n as int) =~= all);
    Ok(())
}

/// File data laid out: what to write where, the checksum of each sector, and
/// the bytes of the last sector where it is not full.
#[verifier::ext_equal]
pub struct LayoutV {
    pub writes: Seq<(u64, Seq<u8>)>,
    pub sums: Seq<(u64, u32)>,
    pub tail: Seq<u8>,
}

/// A sector with `d` at its front.
pub open spec fn sector_with(d: Seq<u8>, sector: int) -> Seq<u8> {
    d + zeros((sector - d.len()) as nat)
}

/// The lesser of two numbers.
pub open spec fn least(a: int, b: int) -> int {
    if a < b {
        a
    } else {
        b
    }
}

/// How many bytes of `d` go to the unfinished sector.
pub open spec fn tail_room(p: LayoutV, d: Seq<u8>, sector: int) -> int {
    if p.tail.len() == 0 {
        0
    } else {
        least(sector - p.tail.len(), d.len() as int)
    }
}

/// Fill the unfinished sector up with the front of `d`, which goes to `at`. The
/// sector's checksum is made anew.
pub open spec fn fill_tail(p: LayoutV, at: u64, d: Seq<u8>, sector: int) -> LayoutV {
    if p.tail.len() == 0 {
        p
    } else {
        let k = tail_room(p, d, sector);
        let t = p.tail + d.take(k);
        let first = if p.sums.len() > 0 {
            p.sums.last().0
        } else {
            at
        };
        let before = if p.sums.len() > 0 {
            p.sums.drop_last()
        } else {
            p.sums
        };
        LayoutV {
            writes: p.writes.push((at, d.take(k))),
            sums: before.push((first, crc_of(sector_with(t, sector)))),
            tail: if t.len() == sector {
                Seq::empty()
            } else {
                t
            },
        }
    }
}

/// The checksums of the first `n` sectors of `d`, which lies at `at`.
pub open spec fn sector_sums(at: u64, d: Seq<u8>, sector: int, n: nat) -> Seq<(u64, u32)> {
    Seq::new(
        n,
        |i: int|
            (
                cap64(at + i * sector),
                crc_of(d.subrange(i * sector, i * sector + sector)),
            ),
    )
}

/// Lay out the whole sectors at the front of `d`, which go to `at`.
pub open spec fn lay_sectors(p: LayoutV, at: u64, d: Seq<u8>, sector: int) -> LayoutV {
    let n = d.len() as int / sector;
    if n == 0 {
        p
    } else {
        LayoutV {
            writes: p.writes.push((at, d.take(n * sector))),
            sums: p.sums + sector_sums(at, d, sector, n as nat),
            ..p
        }
    }
}

/// Lay out an unfinished sector, which goes to `at`.
pub open spec fn lay_rest(p: LayoutV, at: u64, d: Seq<u8>, sector: int) -> LayoutV {
    if d.len() == 0 {
        p
    } else {
        LayoutV {
            writes: p.writes.push((at, sector_with(d, sector))),
            sums: p.sums.push((at, crc_of(sector_with(d, sector)))),
            tail: d,
        }
    }
}

/// Lay out `d`, which goes to `at`: first the unfinished sector is filled up,
/// then come whole sectors, then a new unfinished one.
pub open spec fn lay_out(p: LayoutV, at: u64, d: Seq<u8>, sector: int) -> LayoutV {
    let k = tail_room(p, d, sector);
    let a = fill_tail(p, at, d, sector);
    let e = d.skip(k);
    let m = e.len() as int / sector * sector;
    let b = lay_sectors(a, cap64(at + k), e, sector);
    lay_rest(b, cap64(at + k + m), e.skip(m), sector)
}

/// Lay `d` out over `runs`, the first of which begins at byte `cursor` of the
/// file; `written` bytes of the file are written already.
pub open spec fn lay_runs(
    p: LayoutV,
    runs: Seq<(u64, u64)>,
    cursor: u64,
    written: u64,
    d: Seq<u8>,
    sector: int,
) -> LayoutV
    decreases runs.len(),
{
    if runs.len() == 0 {
        p
    } else {
        let (at, len) = runs[0];
        let end = cap64(cursor + len);
        if written >= end {
            lay_runs(p, runs.skip(1), end, written, d, sector)
        } else {
            let off = written.saturating_sub(cursor);
            let take = least(len - off, d.len() as int);
            let q = lay_out(p, cap64(at + off), d.take(take), sector);
            if take == d.len() {
                q
            } else {
                lay_runs(q, runs.skip(1), end, cap64(written + take), d.skip(take), sector)
            }
        }
    }
}

/// File data laid out.
#[derive(Debug)]
pub struct Layout {
    pub writes: Vec<(u64, Vec<u8>)>,
    pub sums: Vec<(u64, u32)>,
    pub tail: Vec<u8>,
}

impl View for Layout {
    type V = LayoutV;

    open spec fn view(&self) -> LayoutV {
        LayoutV { writes: pairs_of(self.writes@), sums: self.sums@, tail: self.tail@ }
    }
}

impl Layout {
    fn push_write(&mut self, at: u64, d: Vec<u8>)
        ensures
            final(self)@ == (LayoutV {
                writes: old(self)@.writes.push((at, d@)),
                ..old(self)@
            }),
    {
        let ghost before = self.writes@;
        let ghost data = d@;
        self.writes.push((at, d));
        assert(pairs_of(self.writes@) =~= pairs_of(before).push((at, data)));
    }

    fn fill(&mut self, at: u64, d: &[u8], sector: usize) -> (k: usize)
        requires
            old(self)@.tail.len() < sector,
        ensures
            final(self)@ == fill_tail(old(self)@, at, d@, sector as int),
            k == tail_room(old(self)@, d@, sector as int),
            k <= d@.len(),
            final(self)@.tail.len() < sector,
            k < d@.len() ==> final(self)@.tail.len() == 0,
    {
        let t0: usize = self.tail.len();
        if t0 == 0 {
            return 0;
        }
        let ghost p = self@;
        let room: usize = sector - t0;
        let k: usize = if room < d.len() {
            room
        } else {
            d.len()
        };
        let part = copy_range(d, 0, k);
        assert(part@ =~= d@.take(k as int));
        append_bytes(&mut self.tail, part.as_slice());
        let ghost t = p.tail + d@.take(k as int);
        self.push_write(at, part);
        let mut full = copy_bytes(self.tail.as_slice());
        append_zeros(&mut full, sector - (t0 + k));
        assert(full@ =~= sector_with(t, sector as int));
        let first: u64 = match self.sums.pop() {
            Some(x) => x.0,
            None => at,
        };
        self.sums.push((first, crc32c(full.as_slice())));
        if t0 + k == sector {
            self.tail = Vec::new();
            assert(self@.tail =~= Seq::<u8>::empty());
        }
        assert(self@ =~= fill_tail(p, at, d@, sector as int));
        k
    }

    fn sectors(&mut self, at: u64, d: &[u8], sector: usize) -> (m: usize)
        requires
            sector > 0,
        ensures
            final(self)@ == lay_sectors(old(self)@, at, d@, sector as int),
            m == d@.len() as int / sector as int * sector,
            m <= d@.len(),
            d@.len() - m < sector,
    {
        let ghost p = self@;
        let len: usize = d.len();
        let n: usize = len / sector;
        proof {
            vstd::arithmetic::div_mod::lemma_fundamental_div_mod(len as int, sector as int);
            vstd::arithmetic::mul::lemma_mul_is_commutative(n as int, sector as int);
            vstd::arithmetic::div_mod::lemma_mod_bound(len as int, sector as int);
        }
        if n == 0 {
            assert(0 * sector == 0);
            assert(sector * 0 == 0);
            return 0;
        }
        let m: usize = n * sector;
        let body = copy_range(d, 0, m);
        assert(body@ =~= d@.take(m as int));
        self.push_write(at, body);
        let ghost q = self@;
        let mut i: usize = 0;
        assert(self.sums@ =~= p.sums + sector_sums(at, d@, sector as int, 0));
        while i < n
            invariant
                i <= n,
                m == n * sector,
                m <= d@.len(),
                sector > 0,
                self.sums@ == p.sums + sector_sums(at, d@, sector as int, i as nat),
                self@ == (LayoutV { sums: self@.sums, ..q }),
            decreases n - i,
        {
            proof {
                assert(i * sector + sector <= m) by (nonlinear_arith)
                    requires
                        i + 1 <= n,
                        m == n * sector,
                ;
                assert(i * sector >= 0) by (nonlinear_arith)
                    requires
                        i >= 0,
                        sector >= 0,
                ;
            }
            let o: usize = i * sector;
            let one = copy_range(d, o, o + sector);
            self.sums.push((at.saturating_add(o as u64), crc32c(one.as_slice())));
            i += 1;
            assert(self.sums@ =~= p.sums + sector_sums(at, d@, sector as int, i as nat));
        }
        m
    }

    fn rest(&mut self, at: u64, d: &[u8], sector: usize)
        requires
            d@.len() < sector,
        ensures
            final(self)@ == lay_rest(old(self)@, at, d@, sector as int),
    {
        let ghost p = self@;
        let n: usize = d.len();
        if n == 0 {
            return;
        }
        let mut full = copy_range(d, 0, n);
        append_zeros(&mut full, sector - n);
        assert(full@ =~= sector_with(d@, sector as int));
        let sum: u32 = crc32c(full.as_slice());
        self.push_write(at, full);
        self.sums.push((at, sum));
        self.tail = copy_range(d, 0, n);
        assert(self.tail@ =~= d@);
        assert(self@ =~= lay_rest(p, at, d@, sector as int));
    }

    fn place(&mut self, at: u64, d: &[u8], sector: usize)
        requires
            sector > 0,
            old(self)@.tail.len() < sector,
        ensures
            final(self)@ == lay_out(old(self)@, at, d@, sector as int),
            final(self)@.tail.len() < sector,
    {
        let n: usize = d.len();
        let k: usize = self.fill(at, d, sector);
        let e = copy_range(d, k, n);
        assert(e@ =~= d@.skip(k as int));
        let m: usize = self.sectors(at.saturating_add(k as u64), e.as_slice(), sector);
        let f = copy_range(e.as_slice(), m, n - k);
        assert(f@ =~= e@.skip(m as int));
        proof {
            assert(cap64(at + k + m) == cap64(cap64(at + k) + m));
        }
        self.rest(at.saturating_add(k as u64).saturating_add(m as u64), f.as_slice(), sector);
    }

    /// Lay `d` out over `runs`; `written` bytes of the file are written already.
    pub fn over_runs(&mut self, runs: &Vec<(u64, u64)>, written: u64, d: &[u8], sector: usize)
        requires
            sector > 0,
            old(self)@.tail.len() < sector,
            written + d@.len() <= u64::MAX,
        ensures
            final(self)@ == lay_runs(old(self)@, runs@, 0, written, d@, sector as int),
            final(self)@.tail.len() < sector,
    {
        let ghost p = self@;
        let ghost whole = lay_runs(p, runs@, 0, written, d@, sector as int);
        let n: usize = runs.len();
        let size: usize = d.len();
        let mut i: usize = 0;
        let mut cursor: u64 = 0;
        let mut so_far: u64 = written;
        let mut done: usize = 0;
        proof {
            assert(runs@.skip(0) =~= runs@);
            assert(d@.skip(0) =~= d@);
        }
        while i < n
            invariant
                i <= n,
                n == runs@.len(),
                size == d@.len(),
                done <= size,
                so_far == written + done,
                written + size <= u64::MAX,
                sector > 0,
                self@.tail.len() < sector,
                whole == lay_runs(p, runs@, 0, written, d@, sector as int),
                p == old(self)@,
                whole == lay_runs(
                    self@,
                    runs@.skip(i as int),
                    cursor,
                    so_far,
                    d@.skip(done as int),
                    sector as int,
                ),
            decreases n - i,
        {
            let (at, len) = runs[i];
            proof {
                assert(runs@.skip(i as int)[0] == runs@[i as int]);
                assert(runs@.skip(i as int).skip(1) =~= runs@.skip(i + 1));
            }
            let end: u64 = cursor.saturating_add(len);
            if so_far < end {
                let off: u64 = so_far.saturating_sub(cursor);
                let room: u64 = len - off;
                let left: usize = size - done;
                let take: usize = if room < left as u64 {
                    room as usize
                } else {
                    left
                };
                let part = copy_range(d, done, done + take);
                proof {
                    assert(part@ =~= d@.skip(done as int).take(take as int));
                    assert(d@.skip(done as int).skip(take as int) =~= d@.skip(done + take));
                }
                self.place(at.saturating_add(off), part.as_slice(), sector);
                if take == left {
                    return;
                }
                so_far = so_far + take as u64;
                done += take;
            }
            cursor = end;
            i += 1;
        }
    }
}

} // verus!
