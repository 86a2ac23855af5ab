//! Where writes of file data land on the device, and that writing a file piece
//! by piece leaves the same there as writing it at once.

use vstd::prelude::*;

use crate::bytes::splice;
use crate::device::DeviceOp;
use crate::error::{Fault, Outcome};
use crate::fs::btrfs::chunk::{
    chunk_covers, chunk_holding, chunk_holding_covers, chunk_holding_unique, locate,
    locate_reaches, ChunkV,
};
use crate::fs::btrfs::crc32c::crc_of;
use crate::fs::btrfs::volume::VolV;
use crate::fs::btrfs::write::appending::{
    address_of, in_step, laid_in_parts, last_at, laying_is_putting, put_bytes, put_in_parts,
    runs_within,
};
use crate::fs::btrfs::write::commit::{copies, played, played_concat};
use crate::fs::btrfs::write::extent_tree::cap64;
use crate::fs::btrfs::write::file::WriterV;
use crate::fs::btrfs::write::payload::ceil_div;
use crate::fs::btrfs::write::pieces::{
    fill_tail, lay_out, lay_runs, lay_sectors, least, sector_with, span_script, spans_script,
    tail_room, LayoutV,
};
use crate::fs::btrfs::write::placing::runs_sum;
use crate::fs::btrfs::write::readback::played_len;
use crate::fs::btrfs::write::stream::{advanced, laid, writes_chunk};

verus! {

/// Chunks that lie apart: no address is in two of them, and no byte of the
/// device in two of their stripes.
pub open spec fn chunks_apart(chunks: Seq<ChunkV>) -> bool {
    &&& forall|p: int, q: int, x: u64|
        0 <= p < chunks.len() && 0 <= q < chunks.len() && #[trigger] chunk_covers(chunks[p], x)
            && #[trigger] chunk_covers(chunks[q], x) ==> p == q
    &&& forall|p: int|
        0 <= p < chunks.len() ==> (#[trigger] chunks[p]).logical + chunks[p].length <= u64::MAX
    &&& forall|p: int, i: int|
        0 <= p < chunks.len() && 0 <= i < chunks[p].stripes.len() ==> (
        #[trigger] chunks[p].stripes[i]).offset + chunks[p].length <= u64::MAX
    &&& forall|p: int, i: int, q: int, j: int|
        0 <= p < chunks.len() && 0 <= i < chunks[p].stripes.len() && 0 <= q < chunks.len() && 0
            <= j < chunks[q].stripes.len() && !(p == q && i == j) ==> {
            ||| (#[trigger] chunks[p].stripes[i]).offset + chunks[p].length <= (
            #[trigger] chunks[q].stripes[j]).offset
            ||| chunks[q].stripes[j].offset + chunks[q].length <= chunks[p].stripes[i].offset
        }
}

/// The byte at `x` is mapped, and copy `j` of it is at `place`.
pub open spec fn copy_at(chunks: Seq<ChunkV>, x: int, j: int, place: int) -> bool {
    &&& 0 <= x <= u64::MAX
    &&& locate(chunks, x as u64) matches Ok((places, _)) && 0 <= j < places.len() && places[j]
        == place
}

/// Some copy of the byte at `x` is at `place`.
pub open spec fn lands_on(chunks: Seq<ChunkV>, x: int, place: int) -> bool {
    exists|j: int| copy_at(chunks, x, j, place)
}

/// Within a chunk the copies go on in step with the addresses.
pub proof fn copies_go_on(chunks: Seq<ChunkV>, x: u64, i: int)
    requires
        chunks_apart(chunks),
        locate(chunks, x) is Ok,
        0 <= i < locate(chunks, x)->Ok_0.1,
    ensures
        x + i <= u64::MAX,
        locate(chunks, (x + i) as u64) is Ok,
        ({
            let (places, run) = locate(chunks, x)->Ok_0;
            let (later, rest) = locate(chunks, (x + i) as u64)->Ok_0;
            &&& later.len() == places.len()
            &&& rest == run - i
            &&& forall|j: int| 0 <= j < places.len() ==> #[trigger] later[j] == places[j] + i
        }),
{
    chunk_holding_covers(chunks, x);
    let p = chunk_holding(chunks, x);
    let c = chunks[p];
    let y = (x + i) as u64;
    assert(chunk_covers(c, y));
    assert forall|q: int| 0 <= q < p implies !chunk_covers(#[trigger] chunks[q], y) by {
        if chunk_covers(chunks[q], y) {
            assert(chunk_covers(chunks[p], y));
        }
    }
    chunk_holding_unique(chunks, y, p);
    assert forall|j: int| 0 <= j < c.stripes.len() implies (#[trigger] c.stripes[j]).offset + (y
        - c.logical) <= u64::MAX by {
        assert(chunks[p].stripes[j].offset + chunks[p].length <= u64::MAX);
    }
}

/// No two addresses share a byte of the device.
pub proof fn one_address(chunks: Seq<ChunkV>, x: int, y: int, place: int)
    requires
        chunks_apart(chunks),
        lands_on(chunks, x, place),
        lands_on(chunks, y, place),
    ensures
        x == y,
{
    let i = choose|i: int| copy_at(chunks, x, i, place);
    let j = choose|j: int| copy_at(chunks, y, j, place);
    chunk_holding_covers(chunks, x as u64);
    chunk_holding_covers(chunks, y as u64);
    let p = chunk_holding(chunks, x as u64);
    let q = chunk_holding(chunks, y as u64);
    let a = chunks[p].stripes[i];
    let b = chunks[q].stripes[j];
    assert(a.offset + (x - chunks[p].logical) == place);
    assert(b.offset + (y - chunks[q].logical) == place);
    if !(p == q && i == j) {
        assert(chunks[p].stripes[i].offset + chunks[p].length <= chunks[q].stripes[j].offset
            || chunks[q].stripes[j].offset + chunks[q].length <= chunks[p].stripes[i].offset);
    }
}

/// What writing the same bytes at several places leaves.
proof fn copies_land(disk: Seq<u8>, places: Seq<u64>, data: Seq<u8>)
    requires
        forall|i: int, j: int|
            0 <= i < j < places.len() ==> places[i] + data.len() <= places[j] || places[j]
                + data.len() <= places[i],
    ensures
        ({
            let r = played(disk, copies(places, data));
            &&& (r.fault is None) == (forall|j: int|
                0 <= j < places.len() ==> (#[trigger] places[j]) + data.len() <= disk.len())
            &&& r.disk.len() == disk.len()
            &&& r.fault is None ==> forall|j: int, k: int|
                0 <= j < places.len() && 0 <= k < data.len() ==> #[trigger] r.disk[places[j] + k]
                    == data[k]
            &&& r.fault is None ==> forall|q: int|
                0 <= q < disk.len() && (forall|j: int|
                    0 <= j < places.len() ==> !((#[trigger] places[j]) <= q < places[j]
                        + data.len())) ==> #[trigger] r.disk[q] == disk[q]
        }),
    decreases places.len(),
{
    let s = copies(places, data);
    let r = played(disk, s);
    played_len(disk, s);
    if places.len() > 0 {
        let front = places.drop_last();
        let last = places.last();
        assert(s.drop_last() =~= copies(front, data));
        assert(s.last() == Ok::<DeviceOp, Fault>(DeviceOp::Write { offset: last as int, data }));
        copies_land(disk, front, data);
        let r0 = played(disk, copies(front, data));
        played_len(disk, copies(front, data));
        if forall|j: int| 0 <= j < places.len() ==> (#[trigger] places[j]) + data.len()
            <= disk.len() {
            assert forall|j: int| 0 <= j < front.len() implies (#[trigger] front[j]) + data.len()
                <= disk.len() by {
                assert(front[j] == places[j]);
            }
            assert(places[places.len() - 1] + data.len() <= disk.len());
            assert(r.fault is None);
        }
        if r.fault is None {
            assert(r0.fault is None);
            assert forall|j: int| 0 <= j < places.len() implies (#[trigger] places[j]) + data.len()
                <= disk.len() by {
                if j < front.len() {
                    assert(front[j] == places[j]);
                }
            }
            assert(r.disk == splice(r0.disk, last as int, data));
            assert forall|j: int, k: int|
                0 <= j < places.len() && 0 <= k < data.len() implies #[trigger] r.disk[places[j]
                + k] == data[k] by {
                if j < front.len() {
                    assert(front[j] == places[j]);
                    assert(r0.disk[front[j] + k] == data[k]);
                    assert(places[j] + data.len() <= places[places.len() - 1]
                        || places[places.len() - 1] + data.len() <= places[j]);
                }
            }
            assert forall|q: int|
                0 <= q < disk.len() && (forall|j: int|
                    0 <= j < places.len() ==> !((#[trigger] places[j]) <= q < places[j]
                        + data.len())) implies #[trigger] r.disk[q] == disk[q] by {
                assert(!(places[places.len() - 1] <= q < places[places.len() - 1] + data.len()));
                assert forall|j: int| 0 <= j < front.len() implies !((#[trigger] front[j]) <= q
                    < front[j] + data.len()) by {
                    assert(front[j] == places[j]);
                }
                assert(r0.disk[q] == disk[q]);
            }
        }
    } else {
        assert(s =~= Seq::<Outcome<DeviceOp>>::empty());
    }
}

/// Every byte from `at` on for `n` bytes is mapped, and all its copies lie on a
/// device of `len` bytes.
pub open spec fn mapped(chunks: Seq<ChunkV>, at: int, n: int, len: int) -> bool {
    forall|x: int| at <= x < at + n ==> #[trigger] on_device(chunks, x, len)
}

/// The byte at `x` is mapped, and all its copies lie on a device of `len` bytes.
pub open spec fn on_device(chunks: Seq<ChunkV>, x: int, len: int) -> bool {
    &&& 0 <= x <= u64::MAX
    &&& locate(chunks, x as u64) matches Ok((places, _)) && forall|j: int|
        0 <= j < places.len() ==> (#[trigger] places[j]) < len
}

proof fn stripes_apart(chunks: Seq<ChunkV>, x: u64, n: int)
    requires
        chunks_apart(chunks),
        locate(chunks, x) is Ok,
        0 <= n <= locate(chunks, x)->Ok_0.1,
    ensures
        ({
            let places = locate(chunks, x)->Ok_0.0;
            forall|i: int, j: int|
                0 <= i < j < places.len() ==> places[i] + n <= places[j] || places[j] + n
                    <= places[i]
        }),
{
    chunk_holding_covers(chunks, x);
    let p = chunk_holding(chunks, x);
    let places = locate(chunks, x)->Ok_0.0;
    assert forall|i: int, j: int| 0 <= i < j < places.len() implies places[i] + n <= places[j]
        || places[j] + n <= places[i] by {
        assert(chunks[p].stripes[i].offset + chunks[p].length <= chunks[p].stripes[j].offset
            || chunks[p].stripes[j].offset + chunks[p].length <= chunks[p].stripes[i].offset);
    }
}

/// What writing data to all copies of its addresses leaves: each copy of each
/// byte, and nothing else changes. It goes through just where every byte is
/// mapped to the device.
proof fn span_lands(disk: Seq<u8>, chunks: Seq<ChunkV>, at: u64, data: Seq<u8>)
    requires
        chunks_apart(chunks),
        at + data.len() <= u64::MAX,
    ensures
        ({
            let r = played(disk, span_script(chunks, at, data));
            &&& (r.fault is None) == mapped(
                chunks,
                at as int,
                data.len() as int,
                disk.len() as int,
            )
            &&& r.disk.len() == disk.len()
            &&& r.fault is None ==> forall|x: int, q: int|
                at <= x < at + data.len() && #[trigger] lands_on(chunks, x, q) ==> r.disk[q]
                    == data[x - at]
            &&& r.fault is None ==> forall|q: int|
                0 <= q < disk.len() && (forall|x: int|
                    at <= x < at + data.len() ==> !#[trigger] lands_on(chunks, x, q))
                    ==> #[trigger] r.disk[q] == disk[q]
        }),
    decreases data.len(),
{
    let s = span_script(chunks, at, data);
    let r = played(disk, s);
    played_len(disk, s);
    let n = data.len() as int;
    if n > 0 {
        locate_reaches(chunks, at);
        match locate(chunks, at) {
            Err(e) => {
                assert(s == seq![Err::<DeviceOp, Fault>(e)]);
                assert(s.drop_last() =~= Seq::<Outcome<DeviceOp>>::empty());
                assert(played(disk, s.drop_last()).fault is None);
                assert(r.fault == Some(e));
                assert(!on_device(chunks, at as int, disk.len() as int));
            },
            Ok((places, run)) => {
                let take = if run < data.len() {
                    run as int
                } else {
                    n
                };
                let a = copies(places, data.take(take));
                let next = cap64(at + take);
                let rest = data.skip(take);
                let b = span_script(chunks, next, rest);
                assert(s == a + b);
                played_concat(disk, a, b);
                stripes_apart(chunks, at, take);
                copies_land(disk, places, data.take(take));
                let ra = played(disk, a);
                played_len(disk, a);
                span_lands(ra.disk, chunks, next, rest);
                let rb = played(ra.disk, b);
                first_part_mapped(chunks, at, take, disk.len() as int);
                assert(mapped(chunks, at as int, n, disk.len() as int) == (mapped(
                    chunks,
                    at as int,
                    take,
                    disk.len() as int,
                ) && mapped(chunks, next as int, n - take, disk.len() as int))) by {
                    if mapped(chunks, at as int, take, disk.len() as int) && mapped(
                        chunks,
                        next as int,
                        n - take,
                        disk.len() as int,
                    ) {
                        assert forall|x: int| at <= x < at + n implies #[trigger] on_device(
                            chunks,
                            x,
                            disk.len() as int,
                        ) by {}
                    }
                    if mapped(chunks, at as int, n, disk.len() as int) {
                        assert forall|x: int| at <= x < at + take implies #[trigger] on_device(
                            chunks,
                            x,
                            disk.len() as int,
                        ) by {}
                        assert forall|x: int| next <= x < next + (n - take) implies
                        #[trigger] on_device(chunks, x, disk.len() as int) by {}
                    }
                }
                if r.fault is None {
                    assert(ra.fault is None);
                    assert(r.disk == rb.disk);
                    assert forall|x: int, q: int|
                        at <= x < at + n && #[trigger] lands_on(chunks, x, q) implies r.disk[q]
                        == data[x - at] by {
                        if x < at + take {
                            let j = choose|j: int| copy_at(chunks, x, j, q);
                            copies_go_on(chunks, at, x - at);
                            assert(q == places[j] + (x - at));
                            assert(ra.disk[places[j] + (x - at)] == data.take(take)[x - at]);
                            assert forall|y: int|
                                next <= y < next + rest.len() implies !#[trigger] lands_on(
                                chunks,
                                y,
                                q,
                            ) by {
                                if lands_on(chunks, y, q) {
                                    one_address(chunks, x, y, q);
                                }
                            }
                            assert(on_device(chunks, x, disk.len() as int));
                            assert(rb.disk[q] == ra.disk[q]);
                        } else {
                            assert(rb.disk[q] == rest[x - next]);
                        }
                    }
                    assert forall|q: int|
                        0 <= q < disk.len() && (forall|x: int|
                            at <= x < at + n ==> !#[trigger] lands_on(chunks, x, q)) implies
                    #[trigger] r.disk[q] == disk[q] by {
                        assert forall|j: int| 0 <= j < places.len() implies !((
                        #[trigger] places[j]) <= q < places[j] + data.take(take).len()) by {
                            if places[j] <= q < places[j] + take {
                                let x = at + (q - places[j]);
                                copies_go_on(chunks, at, x - at);
                                assert(copy_at(chunks, x, j, q));
                                assert(lands_on(chunks, x, q));
                            }
                        }
                        assert(ra.disk[q] == disk[q]);
                        assert forall|x: int| next <= x < next + rest.len() implies
                        !#[trigger] lands_on(chunks, x, q) by {}
                        assert(rb.disk[q] == ra.disk[q]);
                    }
                }
            },
        }
    }
}

/// The bytes ahead in a chunk are mapped to the device just where the copies do
/// not reach past its end.
proof fn first_part_mapped(chunks: Seq<ChunkV>, at: u64, take: int, len: int)
    requires
        chunks_apart(chunks),
        locate(chunks, at) is Ok,
        0 < take <= locate(chunks, at)->Ok_0.1,
    ensures
        mapped(chunks, at as int, take, len) == (forall|j: int|
            0 <= j < locate(chunks, at)->Ok_0.0.len() ==> (#[trigger] locate(
                chunks,
                at,
            )->Ok_0.0[j]) + take <= len),
{
    let places = locate(chunks, at)->Ok_0.0;
    if mapped(chunks, at as int, take, len) {
        let x = at + take - 1;
        copies_go_on(chunks, at, take - 1);
        assert(on_device(chunks, x, len));
        let later = locate(chunks, x as u64)->Ok_0.0;
        assert forall|j: int| 0 <= j < places.len() implies (#[trigger] places[j]) + take
            <= len by {
            assert(later[j] == places[j] + (take - 1));
            assert(later[j] < len);
        }
    }
    if forall|j: int| 0 <= j < places.len() ==> (#[trigger] places[j]) + take <= len {
        assert forall|x: int| at <= x < at + take implies #[trigger] on_device(chunks, x, len) by {
            copies_go_on(chunks, at, x - at);
            let later = locate(chunks, x as u64)->Ok_0.0;
            assert forall|j: int| 0 <= j < later.len() implies (#[trigger] later[j]) < len by {
                assert(later[j] == places[j] + (x - at));
                assert(places[j] + take <= len);
            }
        }
    }
}

/// Writes that do not reach the end of the address space.
pub open spec fn writes_within(writes: Seq<(u64, Seq<u8>)>) -> bool {
    forall|i: int|
        0 <= i < writes.len() ==> (#[trigger] writes[i]).0 + writes[i].1.len() <= u64::MAX
}

/// Every byte that is written is mapped to the device.
pub open spec fn all_mapped(chunks: Seq<ChunkV>, writes: Seq<(u64, Seq<u8>)>, len: int) -> bool {
    forall|x: int| #[trigger] last_at(writes, x) is Some ==> on_device(chunks, x, len)
}

/// What several writes leave: at each copy of an address that they reach, what
/// the last of them to reach it puts there; and nothing else changes. They go
/// through just where every byte is mapped to the device.
proof fn spans_land(disk: Seq<u8>, chunks: Seq<ChunkV>, writes: Seq<(u64, Seq<u8>)>)
    requires
        chunks_apart(chunks),
        writes_within(writes),
    ensures
        ({
            let r = played(disk, spans_script(chunks, writes));
            &&& (r.fault is None) == all_mapped(chunks, writes, disk.len() as int)
            &&& r.disk.len() == disk.len()
            &&& r.fault is None ==> forall|x: int, q: int|
                last_at(writes, x) is Some && #[trigger] lands_on(chunks, x, q) ==> last_at(
                    writes,
                    x,
                ) == Some(r.disk[q])
            &&& r.fault is None ==> forall|q: int|
                0 <= q < disk.len() && (forall|x: int|
                    last_at(writes, x) is Some ==> !#[trigger] lands_on(chunks, x, q))
                    ==> #[trigger] r.disk[q] == disk[q]
        }),
    decreases writes.len(),
{
    let s = spans_script(chunks, writes);
    let r = played(disk, s);
    let len = disk.len() as int;
    played_len(disk, s);
    if writes.len() > 0 {
        let front = writes.drop_last();
        let (at, d) = writes.last();
        assert(writes[writes.len() - 1] == (at, d));
        assert forall|i: int| 0 <= i < front.len() implies (#[trigger] front[i]).0
            + front[i].1.len() <= u64::MAX by {
            assert(front[i] == writes[i]);
        }
        spans_land(disk, chunks, front);
        let a = spans_script(chunks, front);
        let b = span_script(chunks, at, d);
        assert(s == a + b);
        played_concat(disk, a, b);
        let ra = played(disk, a);
        played_len(disk, a);
        span_lands(ra.disk, chunks, at, d);
        let rb = played(ra.disk, b);
        if all_mapped(chunks, writes, len) {
            assert forall|x: int| #[trigger] last_at(front, x) is Some implies on_device(
                chunks,
                x,
                len,
            ) by {
                assert(last_at(writes, x) is Some);
            }
            assert forall|x: int| at <= x < at + d.len() implies #[trigger] on_device(
                chunks,
                x,
                len,
            ) by {
                assert(last_at(writes, x) is Some);
            }
            assert(mapped(chunks, at as int, d.len() as int, len));
            assert(r.fault is None);
        }
        if r.fault is None {
            assert(ra.fault is None && rb.fault is None);
            assert forall|x: int| #[trigger] last_at(writes, x) is Some implies on_device(
                chunks,
                x,
                len,
            ) by {
                if !(at <= x < at + d.len()) {
                    assert(last_at(front, x) is Some);
                }
            }
            assert forall|x: int, q: int|
                last_at(writes, x) is Some && #[trigger] lands_on(chunks, x, q) implies last_at(
                writes,
                x,
            ) == Some(r.disk[q]) by {
                if at <= x < at + d.len() {
                    assert(rb.disk[q] == d[x - at]);
                } else {
                    assert(last_at(front, x) == Some(ra.disk[q]));
                    assert forall|y: int| at <= y < at + d.len() implies !#[trigger] lands_on(
                        chunks,
                        y,
                        q,
                    ) by {
                        if lands_on(chunks, y, q) {
                            one_address(chunks, x, y, q);
                        }
                    }
                    assert(on_device(chunks, x, len)) by {
                        assert(last_at(writes, x) is Some);
                    }
                    assert(rb.disk[q] == ra.disk[q]);
                }
            }
            assert forall|q: int|
                0 <= q < disk.len() && (forall|x: int|
                    last_at(writes, x) is Some ==> !#[trigger] lands_on(chunks, x, q)) implies
            #[trigger] r.disk[q] == disk[q] by {
                assert forall|x: int| last_at(front, x) is Some implies !#[trigger] lands_on(
                    chunks,
                    x,
                    q,
                ) by {
                    assert(last_at(writes, x) is Some);
                }
                assert(ra.disk[q] == disk[q]);
                assert forall|x: int| at <= x < at + d.len() implies !#[trigger] lands_on(
                    chunks,
                    x,
                    q,
                ) by {
                    assert(last_at(writes, x) is Some);
                }
                assert(rb.disk[q] == ra.disk[q]);
            }
        }
    }
}

/// Writes that leave the same behind as others in two parts leave the same on
/// the device.
pub proof fn same_on_device(
    disk: Seq<u8>,
    chunks: Seq<ChunkV>,
    one: Seq<(u64, Seq<u8>)>,
    first: Seq<(u64, Seq<u8>)>,
    second: Seq<(u64, Seq<u8>)>,
)
    requires
        chunks_apart(chunks),
        writes_within(one),
        writes_within(first),
        writes_within(second),
        forall|l: int| #[trigger]
            last_at(one, l) == match last_at(second, l) {
                Some(v) => Some(v),
                None => last_at(first, l),
            },
        played(disk, spans_script(chunks, first)).fault is None,
        ({
            let mid = played(disk, spans_script(chunks, first)).disk;
            played(mid, spans_script(chunks, second)).fault is None
        }),
    ensures
        ({
            let mid = played(disk, spans_script(chunks, first)).disk;
            let r = played(disk, spans_script(chunks, one));
            r.fault is None && r.disk == played(mid, spans_script(chunks, second)).disk
        }),
{
    let a = played(disk, spans_script(chunks, first));
    let b = played(a.disk, spans_script(chunks, second));
    let r = played(disk, spans_script(chunks, one));
    let len = disk.len() as int;
    spans_land(disk, chunks, one);
    spans_land(disk, chunks, first);
    spans_land(a.disk, chunks, second);
    assert forall|x: int| #[trigger] last_at(one, x) is Some implies on_device(chunks, x, len) by {
        if last_at(second, x) is None {
            assert(last_at(first, x) is Some);
        }
    }
    assert forall|q: int| 0 <= q < len implies r.disk[q] == b.disk[q] by {
        if exists|x: int| last_at(one, x) is Some && #[trigger] lands_on(chunks, x, q) {
            let x = choose|x: int| last_at(one, x) is Some && #[trigger] lands_on(chunks, x, q);
            assert(last_at(one, x) == Some(r.disk[q]));
            if last_at(second, x) is Some {
                assert(last_at(second, x) == Some(b.disk[q]));
            } else {
                assert(last_at(first, x) == Some(a.disk[q]));
                assert forall|y: int| last_at(second, y) is Some implies !#[trigger] lands_on(
                    chunks,
                    y,
                    q,
                ) by {
                    if lands_on(chunks, y, q) {
                        one_address(chunks, x, y, q);
                    }
                }
                assert(b.disk[q] == a.disk[q]);
            }
        } else {
            assert forall|x: int| last_at(first, x) is Some implies !#[trigger] lands_on(
                chunks,
                x,
                q,
            ) by {
                assert(last_at(one, x) is Some);
            }
            assert forall|x: int| last_at(second, x) is Some implies !#[trigger] lands_on(
                chunks,
                x,
                q,
            ) by {
                assert(last_at(one, x) is Some);
            }
            assert(r.disk[q] == disk[q]);
            assert(a.disk[q] == disk[q]);
            assert(b.disk[q] == a.disk[q]);
        }
    }
    assert(r.disk =~= b.disk);
}

/// Runs that end more than a sector before the address space does.
pub open spec fn runs_clear(runs: Seq<(u64, u64)>, sector: int) -> bool {
    forall|i: int|
        0 <= i < runs.len() ==> (#[trigger] runs[i]).0 + runs[i].1 + sector <= u64::MAX
}

proof fn laid_within(p: LayoutV, at: u64, d: Seq<u8>, sector: int)
    requires
        sector > 0,
        p.tail.len() < sector,
        at + d.len() + sector <= u64::MAX,
        writes_within(p.writes),
    ensures
        writes_within(lay_out(p, at, d, sector).writes),
        lay_out(p, at, d, sector).tail.len() < sector,
{
    let k = tail_room(p, d, sector);
    let a = fill_tail(p, at, d, sector);
    let e = d.skip(k);
    let n = e.len() as int / sector;
    let m = n * sector;
    vstd::arithmetic::div_mod::lemma_fundamental_div_mod(e.len() as int, sector);
    vstd::arithmetic::mul::lemma_mul_is_commutative(sector, n);
    vstd::arithmetic::div_mod::lemma_mod_bound(e.len() as int, sector);
    vstd::arithmetic::div_mod::lemma_div_pos_is_pos(e.len() as int, sector);
    assert(m >= 0) by (nonlinear_arith)
        requires
            m == n * sector,
            n >= 0,
            sector > 0,
    ;
    if p.tail.len() > 0 {
        more_within(p.writes, at, d.take(k));
    }
    let b = lay_sectors(a, cap64(at + k), e, sector);
    if n > 0 {
        more_within(a.writes, cap64(at + k), e.take(m));
    }
    let f = e.skip(m);
    if f.len() > 0 {
        more_within(b.writes, cap64(at + k + m), sector_with(f, sector));
    }
}

proof fn more_within(writes: Seq<(u64, Seq<u8>)>, at: u64, d: Seq<u8>)
    requires
        writes_within(writes),
        at + d.len() <= u64::MAX,
    ensures
        writes_within(writes.push((at, d))),
{
    let all = writes.push((at, d));
    assert forall|i: int| 0 <= i < all.len() implies (#[trigger] all[i]).0 + all[i].1.len()
        <= u64::MAX by {
        if i < writes.len() {
            assert(all[i] == writes[i]);
        }
    }
}

proof fn all_laid_within(
    p: LayoutV,
    runs: Seq<(u64, u64)>,
    cursor: u64,
    written: u64,
    d: Seq<u8>,
    sector: int,
)
    requires
        sector > 0,
        p.tail.len() < sector,
        runs_clear(runs, sector),
        writes_within(p.writes),
    ensures
        writes_within(lay_runs(p, runs, cursor, written, d, sector).writes),
    decreases runs.len(),
{
    if runs.len() > 0 {
        let (at, len) = runs[0];
        assert(runs[0].0 + runs[0].1 + sector <= u64::MAX);
        let rest = runs.skip(1);
        assert forall|i: int| 0 <= i < rest.len() implies (#[trigger] rest[i]).0 + rest[i].1
            + sector <= u64::MAX by {
            assert(rest[i] == runs[i + 1]);
        }
        let end = cap64(cursor + len);
        if written >= end {
            all_laid_within(p, rest, end, written, d, sector);
        } else {
            let off = written.saturating_sub(cursor);
            let take = least(len - off, d.len() as int);
            laid_within(p, cap64(at + off), d.take(take), sector);
            let q = lay_out(p, cap64(at + off), d.take(take), sector);
            if take != d.len() {
                all_laid_within(q, rest, end, cap64(written + take), d.skip(take), sector);
            }
        }
    }
}

/// What a writer keeps of its file besides what is on the device.
pub open spec fn layout_of(a: WriterV) -> LayoutV {
    LayoutV { writes: Seq::empty(), sums: a.sums, tail: a.tail }
}

/// A writer with all its space set aside, whose checksums are in step with its
/// unfinished sector.
pub open spec fn writer_in_step(a: WriterV, sector: u32) -> bool {
    &&& sector > 0
    &&& !a.streaming
    &&& in_step(layout_of(a), sector as int)
    &&& runs_clear(a.runs, sector as int)
    &&& a.size <= runs_sum(a.runs) <= u64::MAX
}

/// Writing data in two calls leaves the writer and the device as writing it in
/// one does: the same bytes written, the same checksums, the same unfinished
/// sector and the same bytes on the device. On a device that does not fail, one
/// call goes through where the two do.
pub proof fn written_in_parts(
    v: VolV,
    a: WriterV,
    x: Seq<u8>,
    y: Seq<u8>,
    v1: VolV,
    a1: WriterV,
    v2: VolV,
    a2: WriterV,
    w: VolV,
    b: WriterV,
    r: Outcome<()>,
)
    requires
        chunks_apart(v.fs.chunks),
        writer_in_step(a, v.fs.sb.sector_size),
        a.written + x.len() + y.len() <= a.size,
        writes_chunk(v, a, x, v1, a1, Ok(())),
        writes_chunk(v1, a1, y, v2, a2, Ok(())),
        writes_chunk(v, a, x + y, w, b, r),
    ensures
        writer_in_step(a1, v.fs.sb.sector_size),
        writer_in_step(a2, v.fs.sb.sector_size),
        v.steady ==> r is Ok,
        r is Ok ==> b == a2 && w.fs.disk == v2.fs.disk,
{
    let sector = v.fs.sb.sector_size as int;
    let chunks = v.fs.chunks;
    let p = layout_of(a);
    let first = laid(a, x, v.fs.sb.sector_size);
    let second = laid(a1, y, v.fs.sb.sector_size);
    let one = laid(a, x + y, v.fs.sb.sector_size);
    assert(runs_within(a.runs)) by {
        assert forall|i: int| 0 <= i < a.runs.len() implies (#[trigger] a.runs[i]).0 + a.runs[i].1
            <= u64::MAX by {
            assert(a.runs[i].0 + a.runs[i].1 + sector <= u64::MAX);
        }
    }
    laid_in_parts(p, a.runs, a.written, x, y, sector);
    assert(WriterV { runs: a.runs, space: a.space, ..a } == a);
    assert(a1 == advanced(a, x, v.fs.sb.sector_size));
    assert(layout_of(a1) == (LayoutV { writes: Seq::empty(), ..first }));
    all_laid_within(p, a.runs, 0, a.written, x, sector);
    all_laid_within(p, a.runs, 0, a.written, x + y, sector);
    all_laid_within(layout_of(a1), a.runs, 0, a1.written, y, sector);
    same_on_device(v.fs.disk, chunks, one.writes, first.writes, second.writes);
    assert(a2 == advanced(a1, y, v.fs.sb.sector_size));
}

/// The checksum of each sector of a file that holds `content`, the last one
/// filled up with zeros; byte `x` of the file goes to `addr(x)`.
pub open spec fn file_sums(addr: spec_fn(int) -> u64, content: Seq<u8>, sector: int) -> Seq<
    (u64, u32),
> {
    Seq::new(
        ceil_div(content.len() as int, sector) as nat,
        |i: int|
            (
                addr(i * sector),
                crc_of(
                    sector_with(
                        content.subrange(
                            i * sector,
                            least(i * sector + sector, content.len() as int),
                        ),
                        sector,
                    ),
                ),
            ),
    )
}

/// Whether a writer has just `content` written: it keeps the checksum of every
/// sector begun, and the bytes of the unfinished one.
pub open spec fn keeps_content(a: WriterV, content: Seq<u8>, sector: int) -> bool {
    &&& a.written == content.len()
    &&& a.sums == file_sums(|x: int| address_of(a.runs, x), content, sector)
    &&& a.tail == content.skip(content.len() as int / sector * sector)
}

proof fn put_sums(addr: spec_fn(int) -> u64, d: Seq<u8>, sector: int)
    requires
        sector > 0,
    ensures
        ({
            let p = LayoutV { writes: Seq::empty(), sums: Seq::empty(), tail: Seq::empty() };
            let q = put_bytes(p, addr, 0, d, sector);
            &&& q.sums == file_sums(addr, d, sector)
            &&& q.tail == d.skip(d.len() as int / sector * sector)
        }),
    decreases d.len(),
{
    let p = LayoutV { writes: Seq::empty(), sums: Seq::empty(), tail: Seq::empty() };
    let q = put_bytes(p, addr, 0, d, sector);
    let n = d.len() as int;
    vstd::arithmetic::div_mod::lemma_fundamental_div_mod(n, sector);
    vstd::arithmetic::div_mod::lemma_mod_bound(n, sector);
    vstd::arithmetic::div_mod::lemma_div_pos_is_pos(n, sector);
    vstd::arithmetic::mul::lemma_mul_is_commutative(sector, n / sector);
    if n == 0 {
        assert(0int / sector == 0) by {
            vstd::arithmetic::div_mod::lemma_div_basics(sector);
        }
        vstd::arithmetic::div_mod::lemma_small_mod(0, sector as nat);
        assert(file_sums(addr, d, sector) =~= Seq::<(u64, u32)>::empty());
        assert(0 * sector == 0) by (nonlinear_arith);
        assert(d.skip(0) =~= Seq::<u8>::empty());
    } else {
        let c = d.drop_last();
        let m = n - 1;
        put_sums(addr, c, sector);
        let q0 = put_bytes(p, addr, 0, c, sector);
        let i = m / sector;
        let o = i * sector;
        vstd::arithmetic::div_mod::lemma_fundamental_div_mod(m, sector);
        vstd::arithmetic::div_mod::lemma_mod_bound(m, sector);
        vstd::arithmetic::div_mod::lemma_div_pos_is_pos(m, sector);
        vstd::arithmetic::mul::lemma_mul_is_commutative(sector, i);
        assert(m == o + m % sector);
        assert(o >= 0) by (nonlinear_arith)
            requires
                o == i * sector,
                i >= 0,
                sector > 0,
        ;
        let t = d.subrange(o, n);
        assert(q0.tail.push(d.last()) =~= t);
        assert(t.len() == m % sector + 1);
        let sums = file_sums(addr, d, sector);
        let old = file_sums(addr, c, sector);
        let k = ceil_div(n, sector);
        assert(k == i + 1 && (n % sector == 0 ==> n == o + sector) && (n % sector != 0 ==> n
            / sector == i)) by {
            next_quotient(m, sector);
        }
        assert((i + 1) * sector == o + sector) by (nonlinear_arith)
            requires
                o == i * sector,
        ;
        assert(least(o + sector, n) == n);
        assert(sums[i] == (addr(o), crc_of(sector_with(t, sector))));
        assert forall|j: int| 0 <= j < i implies sums[j] == #[trigger] old[j] by {
            assert(j * sector + sector <= o && j * sector >= 0) by (nonlinear_arith)
                requires
                    0 <= j < i,
                    o == i * sector,
                    sector > 0,
            ;
            assert(d.subrange(j * sector, j * sector + sector) =~= c.subrange(
                j * sector,
                j * sector + sector,
            ));
        }
        if m % sector == 0 {
            assert(old.len() == i);
            assert(q0.tail.len() == 0);
            assert(q.sums =~= sums);
        } else {
            assert(old.len() == i + 1);
            assert(old[i].0 == addr(o));
            assert(q.sums =~= sums);
        }
        if n % sector == 0 {
            assert(n / sector * sector == n);
            assert(d.skip(n) =~= Seq::<u8>::empty());
            assert(q.tail =~= d.skip(n));
        } else {
            assert(d.skip(o) =~= t);
        }
    }
}

proof fn next_quotient(m: int, s: int)
    requires
        m >= 0,
        s > 0,
    ensures
        ceil_div(m + 1, s) == m / s + 1,
        ceil_div(m, s) == if m % s == 0 {
            m / s
        } else {
            m / s + 1
        },
        (m + 1) % s == 0 ==> m + 1 == (m / s) * s + s,
        (m + 1) % s != 0 ==> (m + 1) / s == m / s && (m + 1) % s == m % s + 1,
        (m + 1) % s == 0 ==> (m + 1) / s == m / s + 1 && m % s == s - 1,
{
    let i = m / s;
    let r = m % s;
    vstd::arithmetic::div_mod::lemma_fundamental_div_mod(m, s);
    vstd::arithmetic::div_mod::lemma_mod_bound(m, s);
    vstd::arithmetic::mul::lemma_mul_is_commutative(s, i);
    if r + 1 < s {
        vstd::arithmetic::div_mod::lemma_fundamental_div_mod_converse(m + 1, s, i, r + 1);
    } else {
        assert((i + 1) * s == i * s + s) by (nonlinear_arith);
        vstd::arithmetic::div_mod::lemma_fundamental_div_mod_converse(m + 1, s, i + 1, 0);
    }
}

/// A writer that has some content written has that content followed by the data
/// written once more data is: its checksums are those of the sectors of the
/// file, one for each sector begun, under the addresses the sectors go to.
pub proof fn written_keeps_content(
    v: VolV,
    a: WriterV,
    content: Seq<u8>,
    data: Seq<u8>,
    w: VolV,
    b: WriterV,
)
    requires
        writer_in_step(a, v.fs.sb.sector_size),
        keeps_content(a, content, v.fs.sb.sector_size as int),
        writes_chunk(v, a, data, w, b, Ok(())),
    ensures
        keeps_content(b, content + data, v.fs.sb.sector_size as int),
{
    let sector = v.fs.sb.sector_size as int;
    let addr = |x: int| address_of(a.runs, x);
    let none = LayoutV { writes: Seq::empty(), sums: Seq::empty(), tail: Seq::empty() };
    let p = layout_of(a);
    assert(runs_within(a.runs)) by {
        assert forall|i: int| 0 <= i < a.runs.len() implies (#[trigger] a.runs[i]).0 + a.runs[i].1
            <= u64::MAX by {
            assert(a.runs[i].0 + a.runs[i].1 + sector <= u64::MAX);
        }
    }
    assert(WriterV { runs: a.runs, space: a.space, ..a } == a);
    let l = laid(a, data, v.fs.sb.sector_size);
    laying_is_putting(p, a.runs, a.written, data, sector);
    put_sums(addr, content, sector);
    put_sums(addr, content + data, sector);
    put_in_parts(none, addr, 0, content, data, sector);
    let q = put_bytes(none, addr, 0, content, sector);
    put_from_sums(q, p, addr, a.written as int, data, sector);
}

/// What adding bytes leaves of checksums and the unfinished sector does not
/// depend on the writes that came before.
proof fn put_from_sums(
    p: LayoutV,
    q: LayoutV,
    addr: spec_fn(int) -> u64,
    from: int,
    d: Seq<u8>,
    sector: int,
)
    requires
        p.sums == q.sums,
        p.tail == q.tail,
    ensures
        put_bytes(p, addr, from, d, sector).sums == put_bytes(q, addr, from, d, sector).sums,
        put_bytes(p, addr, from, d, sector).tail == put_bytes(q, addr, from, d, sector).tail,
    decreases d.len(),
{
    if d.len() > 0 {
        put_from_sums(p, q, addr, from, d.drop_last(), sector);
    }
}

} // verus!
