//! Where the data of a file that is begun goes.

use vstd::arithmetic::power2::pow2;
use vstd::prelude::*;

use crate::error::{Fault, Outcome};
use crate::fs::btrfs::volume::{FsV, VolV};
use crate::fs::btrfs::write::file::{
    all_marked, begins, begins_placed, begins_streaming, begins_with, grows, makes_room,
    new_writer, places, readies, space_beside, with_space, WriterV, MAX_GROWTH,
};
use crate::fs::btrfs::write::gate::refusal;
use crate::fs::btrfs::write::handout::{
    handed_out_once, lies_in, marked_is_handed_out, offered, run_is_handed_out, tidy,
};
use crate::fs::btrfs::write::load::{extent_tree_of, space_on};
use crate::fs::btrfs::write::ops::{chunk_keeps_geometry, failed, takes_chunk};
use crate::fs::btrfs::write::ranges::{align_up, align_up_bounds};
use crate::fs::btrfs::write::space::{alloc_run, best_run, best_run_props, data_free_sum, BgV};
use crate::fs::btrfs::write::tiling::{free_space_is_tidy, groups_at};
use crate::fs::btrfs::write::txn::data::disk_len;
use crate::fs::btrfs::write::extent_tree::cap64;

verus! {

/// Runs that begin at a sector and hold whole sectors.
pub open spec fn runs_aligned(runs: Seq<(u64, u64)>, sector: int) -> bool {
    forall|i: int|
        0 <= i < runs.len() ==> (#[trigger] runs[i]).0 as int % sector == 0 && runs[i].1 as int
            % sector == 0 && runs[i].1 > 0
}

/// Runs no two of which share a byte.
pub open spec fn runs_apart(runs: Seq<(u64, u64)>) -> bool {
    forall|i: int, j: int|
        0 <= i < j < runs.len() ==> runs[i].0 + runs[i].1 <= runs[j].0 || runs[j].0 + runs[j].1
            <= runs[i].0
}

/// The bytes of all runs.
pub open spec fn runs_sum(runs: Seq<(u64, u64)>) -> int
    decreases runs.len(),
{
    if runs.len() == 0 {
        0
    } else {
        runs_sum(runs.drop_last()) + runs.last().1
    }
}

/// No address lies in two block groups.
pub open spec fn groups_apart(fs: FsV) -> bool {
    forall|a: int| #[trigger] groups_at(extent_tree_of(fs)->Ok_0.block_groups, a) <= 1
}

/// A run begins at a sector and holds whole sectors.
pub proof fn run_is_aligned(m: Seq<BgV>, need: u64, sector: u32, k: nat)
    requires
        sector == pow2(k),
        k < 32,
    ensures
        alloc_run(m, need, sector) matches Some((x, n, _)) ==> {
            &&& x as int % sector as int == 0
            &&& n as int % sector as int == 0
            &&& 0 < n <= need
        },
{
    reveal(alloc_run);
    let al = sector as u64;
    let max = (need / al) * al;
    if alloc_run(m, need, sector) is Some {
        vstd::arithmetic::div_mod::lemma_fundamental_div_mod(need as int, al as int);
        vstd::arithmetic::mul::lemma_mul_is_commutative(al as int, need as int / al as int);
        vstd::arithmetic::div_mod::lemma_mod_bound(need as int, al as int);
        assert(0 <= (need as int / al as int) * al <= need) by (nonlinear_arith)
            requires
                need == al * (need as int / al as int) + need as int % al as int,
                need as int % al as int >= 0,
                need >= 0,
                al > 0,
        ;
        best_run_props(m, max as int, al);
        let (g, i, n) = best_run(m, max as int, al);
        let r = m[g].free[i];
        let y = (r.start + (al - 1)) as u64;
        let w = (al - 1) as u64;
        align_up_bounds(r.start, al);
        let x = align_up(r.start, al)->Some_0;
        assert((y & !w) & w == 0) by (bit_vector);
        assert(w == vstd::bits::low_bits_mask(k));
        vstd::bits::lemma_u64_low_bits_mask_is_mod(x, k);
        assert(x as int % al as int == 0);
        let usable = ((r.spec_end() - x) / al as int) * al;
        vstd::arithmetic::div_mod::lemma_mod_multiples_basic(
            (r.spec_end() - x) / al as int,
            al as int,
        );
        vstd::arithmetic::div_mod::lemma_mod_multiples_basic(need as int / al as int, al as int);
        assert(n == usable || n == max);
    }
}

proof fn placed_runs(
    v: VolV,
    space: Seq<BgV>,
    runs: Seq<(u64, u64)>,
    need: u64,
    sector: u32,
    left: nat,
    w: VolV,
    r: Outcome<(Seq<BgV>, Seq<(u64, u64)>)>,
    k: nat,
)
    requires
        places(v, space, runs, need, sector, left, w, r),
        r is Ok,
        sector == pow2(k),
        k < 32,
        runs_aligned(runs, sector as int),
    ensures
        runs_aligned(r->Ok_0.1, sector as int),
        runs_sum(r->Ok_0.1) == runs_sum(runs) + need,
    decreases left, need,
{
    reveal(places);
    if need > 0 {
        run_is_aligned(space, need, sector, k);
        match alloc_run(space, need, sector) {
            Some((at, len, rest)) => {
                let more = runs.push((at, len));
                assert(more.drop_last() =~= runs);
                placed_runs(v, rest, more, (need - len) as u64, sector, left, w, r, k);
            },
            None => {
                let (x, m) = choose|x: VolV, m: Outcome<Seq<BgV>>| #[trigger]
                    grows(v, runs, x, m) && match m {
                        Err(e) => w == x && r == Err::<(Seq<BgV>, Seq<(u64, u64)>), Fault>(e),
                        Ok(s) => places(x, s, runs, need, sector, (left - 1) as nat, w, r),
                    };
                placed_runs(x, m->Ok_0, runs, need, sector, (left - 1) as nat, w, r, k);
            },
        }
    }
}

/// Wherever a chunk is allocated while data is placed, the block groups still
/// lie apart.
pub open spec fn placing_keeps_apart(
    v: VolV,
    space: Seq<BgV>,
    runs: Seq<(u64, u64)>,
    need: u64,
    sector: u32,
    left: nat,
) -> bool
    decreases left, need,
{
    need > 0 ==> match alloc_run(space, need, sector) {
        Some((at, len, rest)) => 0 < len <= need ==> placing_keeps_apart(
            v,
            rest,
            runs.push((at, len)),
            (need - len) as u64,
            sector,
            left,
        ),
        None => left > 0 ==> forall|x: VolV, s: Seq<BgV>| #[trigger]
            grows(v, runs, x, Ok(s)) ==> groups_apart(x.fs) && placing_keeps_apart(
                x,
                s,
                runs,
                need,
                sector,
                (left - 1) as nat,
            ),
    }
}

/// Wherever a chunk is allocated while room is made, and then while data is
/// placed, the block groups still lie apart.
pub open spec fn making_room_keeps_apart(
    v: VolV,
    space: Seq<BgV>,
    need: u64,
    sector: u32,
    left: nat,
) -> bool
    decreases left,
{
    &&& placing_keeps_apart(v, space, Seq::empty(), need, sector, MAX_GROWTH as nat)
    &&& left > 0 ==> forall|x: VolV, s: Seq<BgV>| #[trigger]
        grows(v, Seq::empty(), x, Ok(s)) ==> groups_apart(x.fs) && making_room_keeps_apart(
            x,
            s,
            need,
            sector,
            (left - 1) as nat,
        )
}

/// None of the bytes of `runs` is free.
spec fn taken(space: Seq<BgV>, runs: Seq<(u64, u64)>) -> bool {
    forall|i: int, a: int|
        0 <= i < runs.len() && lies_in(a, runs[i].0 as int, runs[i].1 as int) ==> offered(space, a)
            == 0
}

proof fn marking_takes(space: Seq<BgV>, runs: Seq<(u64, u64)>)
    requires
        tidy(space),
        all_marked(space, runs) is Ok,
    ensures
        tidy(all_marked(space, runs)->Ok_0),
        taken(all_marked(space, runs)->Ok_0, runs),
    decreases runs.len(),
{
    if runs.len() > 0 {
        let front = runs.drop_last();
        marking_takes(space, front);
        let s = all_marked(space, front)->Ok_0;
        let t = all_marked(space, runs)->Ok_0;
        let (x, n) = runs.last();
        marked_is_handed_out(s, x, n);
        handed_out_once(s, t, x as int, n as int);
        assert forall|i: int, a: int|
            0 <= i < runs.len() && lies_in(a, runs[i].0 as int, runs[i].1 as int) implies offered(
            t,
            a,
        ) == 0 by {
            if i < front.len() {
                assert(front[i] == runs[i]);
                assert(offered(s, a) == 0);
            }
            if !lies_in(a, x as int, n as int) {
                assert(offered(t, a) == offered(s, a));
            }
        }
    }
}

proof fn grown_takes(v: VolV, runs: Seq<(u64, u64)>, x: VolV, s: Seq<BgV>)
    requires
        grows(v, runs, x, Ok(s)),
        groups_apart(x.fs),
    ensures
        tidy(s),
        taken(s, runs),
{
    let r = Ok::<Seq<BgV>, Fault>(s);
    let (y, m) = choose|y: VolV, m: Outcome<u64>| #[trigger]
        takes_chunk(v, runs, y, m) && match m {
            Err(e) => x == y && r == Err::<Seq<BgV>, Fault>(e),
            Ok(_) => (x == y && failed(y, r))
                || match space_beside(y.fs, runs) {
                Err(e) => x == y && r == Err::<Seq<BgV>, Fault>(e),
                Ok(t) => x == with_space(y, t) && r == Ok::<Seq<BgV>, Fault>(t),
            },
        };
    assert(x.fs == y.fs);
    free_space_is_tidy(x.fs);
    marking_takes(space_on(x.fs)->Ok_0, runs);
}

proof fn placed_apart(
    v: VolV,
    space: Seq<BgV>,
    runs: Seq<(u64, u64)>,
    need: u64,
    sector: u32,
    left: nat,
    w: VolV,
    r: Outcome<(Seq<BgV>, Seq<(u64, u64)>)>,
)
    requires
        places(v, space, runs, need, sector, left, w, r),
        r is Ok,
        placing_keeps_apart(v, space, runs, need, sector, left),
        tidy(space),
        taken(space, runs),
        runs_apart(runs),
        forall|i: int| 0 <= i < runs.len() ==> (#[trigger] runs[i]).1 > 0,
    ensures
        runs_apart(r->Ok_0.1),
        tidy(r->Ok_0.0),
        taken(r->Ok_0.0, r->Ok_0.1),
    decreases left, need,
{
    reveal(places);
    if need > 0 {
        match alloc_run(space, need, sector) {
            Some((at, len, rest)) => {
                let more = runs.push((at, len));
                run_is_handed_out(space, need, sector);
                handed_out_once(space, rest, at as int, len as int);
                assert forall|i: int, j: int| 0 <= i < j < more.len() implies more[i].0 + more[i].1
                    <= more[j].0 || more[j].0 + more[j].1 <= more[i].0 by {
                    if j < runs.len() {
                        assert(more[i] == runs[i] && more[j] == runs[j]);
                    } else {
                        let p = runs[i];
                        assert(more[i] == p && more[j] == (at, len));
                        if !(p.0 + p.1 <= at || at + len <= p.0) {
                            let a = if p.0 < at {
                                at as int
                            } else {
                                p.0 as int
                            };
                            assert(lies_in(a, runs[i].0 as int, runs[i].1 as int));
                            assert(lies_in(a, at as int, len as int));
                            assert(offered(space, a) == 1);
                        }
                    }
                }
                assert forall|i: int, a: int|
                    0 <= i < more.len() && lies_in(
                        a,
                        more[i].0 as int,
                        more[i].1 as int,
                    ) implies offered(rest, a) == 0 by {
                    if i < runs.len() {
                        assert(more[i] == runs[i]);
                        assert(offered(space, a) == 0);
                    }
                    if !lies_in(a, at as int, len as int) {
                        assert(offered(rest, a) == offered(space, a));
                    }
                }
                placed_apart(v, rest, more, (need - len) as u64, sector, left, w, r);
            },
            None => {
                let (x, m) = choose|x: VolV, m: Outcome<Seq<BgV>>| #[trigger]
                    grows(v, runs, x, m) && match m {
                        Err(e) => w == x && r == Err::<(Seq<BgV>, Seq<(u64, u64)>), Fault>(e),
                        Ok(s) => places(x, s, runs, need, sector, (left - 1) as nat, w, r),
                    };
                let s = m->Ok_0;
                assert(grows(v, runs, x, Ok(s)));
                grown_takes(v, runs, x, s);
                placed_apart(x, s, runs, need, sector, (left - 1) as nat, w, r);
            },
        }
    }
}

proof fn room_apart(
    v: VolV,
    space: Seq<BgV>,
    need: u64,
    sector: u32,
    left: nat,
    w: VolV,
    r: Outcome<Seq<BgV>>,
)
    requires
        makes_room(v, space, need, left, w, r),
        r is Ok,
        making_room_keeps_apart(v, space, need, sector, left),
        tidy(space),
    ensures
        tidy(r->Ok_0),
        placing_keeps_apart(w, r->Ok_0, Seq::empty(), need, sector, MAX_GROWTH as nat),
    decreases left,
{
    reveal(makes_room);
    if cap64(data_free_sum(space)) < need {
        let (x, m) = choose|x: VolV, m: Outcome<Seq<BgV>>| #[trigger]
            grows(v, Seq::empty(), x, m) && match m {
                Err(e) => w == x && r == m,
                Ok(s) => makes_room(x, s, need, (left - 1) as nat, w, r),
            };
        let s = m->Ok_0;
        assert(grows(v, Seq::empty(), x, Ok(s)));
        grown_takes(v, Seq::empty(), x, s);
        room_apart(x, s, need, sector, (left - 1) as nat, w, r);
    }
}

/// The runs that are set aside for a file begin at sectors, hold whole sectors,
/// and hold just as many bytes as the file's size rounded up to sectors.
pub proof fn begun_runs_fit(v: VolV, size: u64, now: u64, w: VolV, a: WriterV, k: nat)
    requires
        begins(v, size, now, w, Ok(a)),
        k < 32,
        v.fs.sb.sector_size == pow2(k),
    ensures
        a.size == size,
        a.written == 0,
        !a.streaming,
        runs_aligned(a.runs, v.fs.sb.sector_size as int),
        runs_sum(a.runs) == disk_len(size as int, v.fs.sb.sector_size),
{
    let r = Ok::<WriterV, Fault>(a);
    let (x, m) = choose|x: VolV, m: Outcome<Seq<BgV>>| #[trigger]
        readies(v, now, x, m) && match m {
            Err(e) => w == x && r == Err::<WriterV, Fault>(e),
            Ok(s) => begins_with(x, s, size, w, r),
        };
    let need = disk_len(size as int, x.fs.sb.sector_size);
    let (y, n) = choose|y: VolV, n: Outcome<Seq<BgV>>| #[trigger]
        makes_room(x, m->Ok_0, need, MAX_GROWTH as nat, y, n) && match n {
            Err(e) => w == y && r == Err::<WriterV, Fault>(e),
            Ok(s) => begins_placed(y, s, size, w, r),
        };
    room_keeps_sector(x, m->Ok_0, need, MAX_GROWTH as nat, y, n);
    let sector = y.fs.sb.sector_size;
    let (z, p) = choose|z: VolV, p: Outcome<(Seq<BgV>, Seq<(u64, u64)>)>| #[trigger]
        places(y, n->Ok_0, Seq::empty(), need, sector, MAX_GROWTH as nat, z, p) && match p {
            Err(e) => w == z && r == Err::<WriterV, Fault>(e),
            Ok((s, runs)) => w == (VolV { writer: true, ..with_space(z, s) }) && r == Ok::<
                WriterV,
                Fault,
            >(new_writer(size, runs, s, false)),
        };
    placed_runs(y, n->Ok_0, Seq::empty(), need, sector, MAX_GROWTH as nat, z, p, k);
}

proof fn room_keeps_sector(
    v: VolV,
    space: Seq<BgV>,
    need: u64,
    left: nat,
    w: VolV,
    r: Outcome<Seq<BgV>>,
)
    requires
        makes_room(v, space, need, left, w, r),
    ensures
        w.fs.sb.sector_size == v.fs.sb.sector_size,
    decreases left,
{
    reveal(makes_room);
    if cap64(data_free_sum(space)) < need && left > 0 {
        let (x, m) = choose|x: VolV, m: Outcome<Seq<BgV>>| #[trigger]
            grows(v, Seq::empty(), x, m) && match m {
                Err(e) => w == x && r == m,
                Ok(s) => makes_room(x, s, need, (left - 1) as nat, w, r),
            };
        let (y, t) = choose|y: VolV, t: Outcome<u64>| #[trigger]
            takes_chunk(v, Seq::empty(), y, t) && match t {
                Err(e) => x == y && m == Err::<Seq<BgV>, Fault>(e),
                Ok(_) => (x == y && failed(y, m))
                    || match space_beside(y.fs, Seq::empty()) {
                    Err(e) => x == y && m == Err::<Seq<BgV>, Fault>(e),
                    Ok(s) => x == with_space(y, s) && m == Ok::<Seq<BgV>, Fault>(s),
                },
            };
        chunk_keeps_geometry(v, Seq::empty(), y, t);
        if let Ok(s) = m {
            room_keeps_sector(x, s, need, (left - 1) as nat, w, r);
        }
    }
}

/// The runs that are set aside for a file share no byte, and nothing of them is
/// still free. No address may be free twice at the start, nor lie in two block
/// groups once a chunk was allocated on the way.
pub proof fn begun_runs_apart(v: VolV, size: u64, now: u64, w: VolV, a: WriterV)
    requires
        begins(v, size, now, w, Ok(a)),
        forall|x: VolV, s: Seq<BgV>| #[trigger]
            readies(v, now, x, Ok(s)) ==> tidy(s) && making_room_keeps_apart(
                x,
                s,
                disk_len(size as int, v.fs.sb.sector_size),
                v.fs.sb.sector_size,
                MAX_GROWTH as nat,
            ),
    ensures
        runs_apart(a.runs),
        forall|i: int, b: int|
            0 <= i < a.runs.len() && lies_in(b, a.runs[i].0 as int, a.runs[i].1 as int)
                ==> offered(a.space, b) == 0,
{
    let r = Ok::<WriterV, Fault>(a);
    let (x, m) = choose|x: VolV, m: Outcome<Seq<BgV>>| #[trigger]
        readies(v, now, x, m) && match m {
            Err(e) => w == x && r == Err::<WriterV, Fault>(e),
            Ok(s) => begins_with(x, s, size, w, r),
        };
    let s0 = m->Ok_0;
    assert(readies(v, now, x, Ok(s0)));
    let need = disk_len(size as int, x.fs.sb.sector_size);
    let (y, n) = choose|y: VolV, n: Outcome<Seq<BgV>>| #[trigger]
        makes_room(x, s0, need, MAX_GROWTH as nat, y, n) && match n {
            Err(e) => w == y && r == Err::<WriterV, Fault>(e),
            Ok(s) => begins_placed(y, s, size, w, r),
        };
    room_keeps_sector(x, s0, need, MAX_GROWTH as nat, y, n);
    let sector = y.fs.sb.sector_size;
    room_apart(x, s0, need, sector, MAX_GROWTH as nat, y, n);
    let (z, p) = choose|z: VolV, p: Outcome<(Seq<BgV>, Seq<(u64, u64)>)>| #[trigger]
        places(y, n->Ok_0, Seq::empty(), need, sector, MAX_GROWTH as nat, z, p) && match p {
            Err(e) => w == z && r == Err::<WriterV, Fault>(e),
            Ok((s, runs)) => w == (VolV { writer: true, ..with_space(z, s) }) && r == Ok::<
                WriterV,
                Fault,
            >(new_writer(size, runs, s, false)),
        };
    placed_apart(y, n->Ok_0, Seq::empty(), need, sector, MAX_GROWTH as nat, z, p);
}

/// While a file is being written no other can be begun, and the attempt changes
/// nothing.
pub proof fn begun_is_busy(v: VolV, size: u64, now: u64, w: VolV, r: Outcome<WriterV>)
    requires
        v.writer,
        refusal(v.fs) is None,
        begins(v, size, now, w, r) || begins_streaming(v, now, w, r),
    ensures
        r == Err::<WriterV, Fault>(Fault::WriterBusy),
        w == v,
{
}

} // verus!
