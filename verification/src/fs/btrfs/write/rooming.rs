//! Where new chunks go: into the first hole of the device that is large enough, or
//! the largest there is, clear of all that is taken.

use vstd::prelude::*;

use crate::error::Fault;
use crate::fs::btrfs::chunk::ChunkV;
use crate::fs::btrfs::volume::FsV;
use crate::fs::btrfs::write::chunk_alloc::{
    data_chunk_size, dev_extents, hole_for, hole_is_free, logical_end_bounds, new_chunk_of,
    see_hole, seek_hole, NewChunk,
};
use crate::fs::btrfs::write::exclude::{in_ranges, mirrors_are_excluded, sb_exclusions};
use crate::sort::{stable_sort, stable_sort_sorts};

verus! {

/// Two stretches have no address in common.
pub open spec fn apart(a: int, n: int, b: int, m: int) -> bool {
    a + n <= b || b + m <= a
}

/// The `n` bytes from `a` on lie on a device of `total` bytes, behind its first
/// MiB, and belong to no extent.
pub open spec fn is_room(extents: Seq<(u64, u64)>, total: u64, a: int, n: int) -> bool {
    &&& a >= 1024 * 1024
    &&& a + n <= total
    &&& forall|k: int|
        0 <= k < extents.len() && (#[trigger] extents[k]).1 > 0 ==> apart(
            a,
            n,
            extents[k].0 as int,
            extents[k].1 as int,
        )
}

/// What is free of extents is free of the same extents in order.
proof fn room_in_order(extents: Seq<(u64, u64)>, total: u64, a: int, n: int)
    requires
        is_room(extents, total, a, n),
    ensures
        is_room(stable_sort(extents), total, a, n),
{
    broadcast use vstd::seq_lib::group_to_multiset_ensures;

    let s = stable_sort(extents);
    stable_sort_sorts(extents);
    assert forall|k: int| 0 <= k < s.len() && (#[trigger] s[k]).1 > 0 implies apart(
        a,
        n,
        s[k].0 as int,
        s[k].1 as int,
    ) by {
        assert(s.contains(s[k]));
        assert(s.to_multiset().count(s[k]) > 0);
        assert(extents.contains(s[k]));
        let m = choose|m: int| 0 <= m < extents.len() && extents[m] == s[k];
        assert(extents[m].1 > 0);
    }
}

/// A search that has passed some extents has found a hole no later than any room
/// among them, or has not come past the room yet.
proof fn seeking_meets_room(s: Seq<(u64, u64)>, total: u64, wanted: u64, a: int, n: int)
    requires
        is_room(s, total, a, n),
        n > 0,
    ensures
        ({
            let h = seek_hole(s, wanted);
            ||| h.hit matches Some(x) && x.1 == wanted && (n >= wanted ==> x.0 <= a)
            ||| h.hit is None && n < wanted && h.best is Some && h.best->Some_0.1 >= n
            ||| h.hit is None && h.from <= a
        }),
    decreases s.len(),
{
    if s.len() > 0 {
        let p = s.drop_last();
        assert(is_room(p, total, a, n)) by {
            assert forall|k: int| 0 <= k < p.len() && (#[trigger] p[k]).1 > 0 implies apart(
                a,
                n,
                p[k].0 as int,
                p[k].1 as int,
            ) by {
                assert(p[k] == s[k]);
            }
        }
        seeking_meets_room(p, total, wanted, a, n);
        let last = s[s.len() - 1];
        if last.1 > 0 {
            assert(apart(a, n, last.0 as int, last.1 as int));
        }
    }
}

/// Where there is room for a chunk, it goes to the first such place, at its full
/// size.
pub proof fn first_room_is_taken(
    extents: Seq<(u64, u64)>,
    total: u64,
    wanted: u64,
    least: u64,
    a: int,
)
    requires
        wanted > 0,
        is_room(extents, total, a, wanted as int),
    ensures
        hole_for(extents, total, wanted, least) matches Some(x) && x.1 == wanted && x.0 <= a,
{
    room_in_order(extents, total, a, wanted as int);
    seeking_meets_room(stable_sort(extents), total, wanted, a, wanted as int);
}

/// Where there is room for whole 64 KiB, there is room for a chunk of that size at
/// least.
pub proof fn some_room_is_found(
    extents: Seq<(u64, u64)>,
    total: u64,
    wanted: u64,
    least: u64,
    a: int,
)
    requires
        least > 0,
        least % 65536 == 0,
        least <= wanted,
        is_room(extents, total, a, least as int),
    ensures
        hole_for(extents, total, wanted, least) matches Some(x) && least <= x.1 <= wanted,
{
    room_in_order(extents, total, a, least as int);
    let s = stable_sort(extents);
    seeking_meets_room(s, total, wanted, a, least as int);
    best_is_short(s, wanted);
    let h = see_hole(seek_hole(s, wanted), total, wanted);
    if h.hit is None {
        let len = h.best->Some_0.1 as int;
        assert(len >= least);
        assert(len / 65536 * 65536 >= least) by (nonlinear_arith)
            requires
                len >= least,
                least % 65536 == 0,
                least > 0,
        ;
    }
}

proof fn best_is_short(s: Seq<(u64, u64)>, wanted: u64)
    ensures
        seek_hole(s, wanted).hit is None && seek_hole(s, wanted).best is Some ==> seek_hole(
            s,
            wanted,
        ).best->Some_0.1 < wanted,
        seek_hole(s, wanted).hit is Some ==> seek_hole(s, wanted).hit->Some_0.1 == wanted,
    decreases s.len(),
{
    if s.len() > 0 {
        best_is_short(s.drop_last(), wanted);
    }
}

/// A new data chunk is a tenth of the device, rounded up to whole 16 MiB, where that
/// is 1 GiB at most; else it is 1 GiB.
pub proof fn tenth_of_device(total: u64)
    ensures
        ({
            let n = data_chunk_size(total);
            let tenth = total as int / 10;
            &&& n <= 1024 * 1024 * 1024
            &&& n % 0x100_0000 == 0
            &&& n < 1024 * 1024 * 1024 ==> tenth <= n < tenth + 16 * 1024 * 1024
            &&& tenth > 1008 * 1024 * 1024 ==> n == 1024 * 1024 * 1024
        }),
{
}

/// A new chunk lies on the device behind its first MiB, off every extent there; it
/// is of whole 64 KiB, not larger than such a chunk is to be; and its addresses are
/// those of no other chunk.
pub proof fn chunk_lies_apart(fs: FsV, n: NewChunk, k: int, c: int)
    requires
        new_chunk_of(fs) == Ok::<NewChunk, Fault>(n),
        ({
            let extents = dev_extents(fs, fs.sb.dev_id)->Ok_0;
            &&& 0 <= k < extents.len() && extents[k].1 > 0
            &&& forall|j: int|
                0 <= j < extents.len() ==> (#[trigger] extents[j]).0 + extents[j].1
                    <= fs.sb.total_bytes
        }),
        0 <= c < fs.chunks.len(),
        fs.chunks[c].logical + fs.chunks[c].length <= u64::MAX,
    ensures
        ({
            let e = dev_extents(fs, fs.sb.dev_id)->Ok_0[k];
            &&& n.physical >= 1024 * 1024
            &&& n.physical + n.len <= fs.sb.total_bytes
            &&& apart(n.physical as int, n.len as int, e.0 as int, e.1 as int)
            &&& n.len >= 65536 && n.len % 65536 == 0
            &&& n.len <= data_chunk_size(fs.sb.total_bytes)
            &&& n.logical >= fs.chunks[c].logical + fs.chunks[c].length
        }),
{
    let extents = dev_extents(fs, fs.sb.dev_id)->Ok_0;
    let wanted = data_chunk_size(fs.sb.total_bytes) as u64;
    tenth_of_device(fs.sb.total_bytes);
    hole_is_free(extents, fs.sb.total_bytes, wanted, 65536, k);
    best_is_short(stable_sort(extents), wanted);
    logical_end_bounds(fs.chunks, c);
    let h = see_hole(seek_hole(stable_sort(extents), wanted), fs.sb.total_bytes, wanted);
    assert(wanted as int % 65536 == 0) by {
        assert(data_chunk_size(fs.sb.total_bytes) % 0x100_0000 == 0);
    }
}

/// The 64 KiB from each superblock copy on (at 64 KiB, 64 MiB and 256 GiB of the
/// device) are not handed out under any address.
pub proof fn copies_are_not_given(chunks: Seq<ChunkV>, k: int, j: int, at: u64, x: int)
    requires
        0 <= k < chunks.len(),
        0 <= j < chunks[k].stripes.len(),
        at == 0x1_0000 || at == 0x400_0000 || at == 0x40_0000_0000,
        chunks[k].logical + chunks[k].length <= u64::MAX,
        chunks[k].stripes[j].offset + chunks[k].length <= u64::MAX,
        chunks[k].stripes[j].offset <= at,
        chunks[k].logical <= x < chunks[k].logical + chunks[k].length,
        at <= chunks[k].stripes[j].offset + (x - chunks[k].logical) < at + 65536,
    ensures
        in_ranges(sb_exclusions(chunks), x),
{
    mirrors_are_excluded(chunks, k, j, at, x);
}

} // verus!
