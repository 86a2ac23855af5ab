//! Allocating chunks.
//!
//! A new chunk takes the next free logical address, a size that follows from
//! the size of the device, and the first hole on the device that is large
//! enough.

use std::ops::Range;

use vstd::prelude::*;

use crate::bytes::le64;
use crate::device::ReadAt;
use crate::error::{tracks, Fault, LuksError, Outcome, Result};
use crate::fs::btrfs::chunk::{
    chunk_bytes, chunks_of, dev_extent_bytes, with_chunk, Chunk, ChunkMap, ChunkV, DevExtent,
    Stripe, BLOCK_GROUP_DATA,
};
use crate::fs::btrfs::roots::{optional_root, root_of};
use crate::fs::btrfs::superblock::BTRFS_FEATURE_COMPAT_RO_FREE_SPACE_TREE;
use crate::fs::btrfs::tree::{
    items_of, Item, Key, BLOCK_GROUP_ITEM_KEY, CHUNK_ITEM_KEY, CHUNK_TREE_OBJECTID, DEV_EXTENT_KEY,
    DEV_ITEMS_OBJECTID, DEV_ITEM_KEY, DEV_TREE_OBJECTID, EXTENT_TREE_OBJECTID,
    FIRST_CHUNK_TREE_OBJECTID, FREE_SPACE_TREE_OBJECTID,
};
use crate::fs::btrfs::volume::{disk_node, Btrfs, FsV, TreeRoot};
use crate::fs::btrfs::write::converge::{
    converge_and_finalize, finalized, has_space_tree, looked_up, possible, Changes, ChangesV,
    Lookups,
};
use crate::fs::btrfs::write::cow::agrees;
use crate::fs::btrfs::write::edit::{EditV, LeafEdit};
use crate::fs::btrfs::write::exclude::{compute_sb_exclusions, sb_exclusions};
use crate::fs::btrfs::write::extent_tree::{
    allocs_of, block_group_bytes, cap64, AllocV, BlockGroupItem, ExtentTree,
};
use crate::fs::btrfs::write::gate::{
    bitmap_refusal, check_chunk_allocation_profile, check_free_space_tree_no_bitmaps,
    check_free_space_tree_shape, check_writeable_fs, fs_refusal, profile_refusal, shape_refusal,
};
use crate::fs::btrfs::write::load::{all_items, allocator_of, extent_tree_of, walk_tree};
use crate::fs::btrfs::write::payload::pairs_of;
use crate::fs::btrfs::write::space::{exclude, BgV, BlockGroupFreeSpace, FreeRange, FreeSpaceMap};
use crate::fs::btrfs::write::txn::{
    new_generation, next_generation, tracks_some, Transaction, TxnV,
};
use crate::fs::btrfs::write::workspace::{
    fresh_state, ops_of, steps, OpV, StateV, TreeOp, Workspace,
};
use crate::sort::{ascending, sort_ranked, stable_sort, stable_sort_sorts};

verus! {

/// Chunks begin and end on multiples of this.
pub const SZ_64K: u64 = 65536;
/// Chunk sizes are rounded up to a multiple of this.
pub const SZ_16M: u64 = 16777216;
/// The usual least size of a data chunk.
pub const SZ_64M: u64 = 67108864;
/// The largest stripe.
pub const SZ_1G: u64 = 1073741824;
/// The largest chunk.
pub const SZ_10G: u64 = 10737418240;
/// The start of a device, which is reserved for the superblock and a boot
/// loader.
pub const BTRFS_BLOCK_RESERVED_1M_FOR_SUPER: u64 = 1048576;
/// The usual least size of a data chunk.
pub const MIN_DATA_CHUNK_SIZE: u64 = SZ_64M;
/// The least size of a stripe.
pub const MIN_STRIPE_SIZE_FLOOR: u64 = SZ_64K;

/// The first logical address behind all chunks.
pub open spec fn logical_end(chunks: Seq<ChunkV>) -> u64
    decreases chunks.len(),
{
    if chunks.len() == 0 {
        0
    } else {
        let m = logical_end(chunks.drop_last());
        let e = cap64(chunks.last().logical + chunks.last().length);
        if e > m {
            e
        } else {
            m
        }
    }
}

/// No chunk reaches past `logical_end`.
pub proof fn logical_end_bounds(chunks: Seq<ChunkV>, k: int)
    requires
        0 <= k < chunks.len(),
    ensures
        cap64(chunks[k].logical + chunks[k].length) <= logical_end(chunks),
    decreases chunks.len(),
{
    if k < chunks.len() - 1 {
        logical_end_bounds(chunks.drop_last(), k);
    }
}

/// The next logical address: the first one behind all chunks.
pub fn next_logical(chunk_map: &ChunkMap) -> (r: u64)
    ensures
        r == logical_end(chunk_map@),
{
    let chunks = chunk_map.chunks();
    let ghost all = chunk_map@;
    let n: usize = chunks.len();
    let mut top: u64 = 0;
    let mut i: usize = 0;
    assert(all.take(0) =~= Seq::<ChunkV>::empty());
    while i < n
        invariant
            i <= n,
            n == chunks@.len(),
            all == chunks_of(chunks@),
            top == logical_end(all.take(i as int)),
        decreases n - i,
    {
        proof {
            assert(all.take(i + 1).drop_last() =~= all.take(i as int));
            assert(all.take(i + 1).last() == chunks@[i as int]@);
        }
        let end: u64 = chunks[i].logical.saturating_add(chunks[i].length);
        if end > top {
            top = end;
        }
        i += 1;
    }
    assert(all.take(n as int) =~= all);
    top
}

/// The size of a new data chunk on a device of `total` bytes: a tenth of the
/// device, rounded up to whole 16 MiB, but 1 GiB at most.
pub open spec fn data_chunk_size(total: u64) -> int {
    let tenth = total as int / 10;
    let up = (tenth + SZ_16M - 1) / SZ_16M as int * SZ_16M;
    if up > SZ_1G {
        SZ_1G as int
    } else {
        up
    }
}

/// Decide the size of a new data chunk on a device of `total_rw_bytes`.
pub fn decide_data_chunk_size(total_rw_bytes: u64) -> (r: u64)
    ensures
        r == data_chunk_size(total_rw_bytes),
        r % SZ_64K == 0,
        r <= SZ_1G,
{
    let tenth: u64 = total_rw_bytes / 10;
    let max_chunk: u64 = if tenth < SZ_10G {
        tenth
    } else {
        SZ_10G
    };
    let mut stripe: u64 = SZ_1G;
    if stripe > max_chunk {
        let target: u64 = (max_chunk + (SZ_16M - 1)) / SZ_16M * SZ_16M;
        if target < stripe {
            stripe = target;
        }
    }
    (stripe / SZ_64K) * SZ_64K
}

/// What the search for a hole has come to.
#[verifier::ext_equal]
pub struct Holes {
    /// Where the next hole can begin.
    pub from: u64,
    /// The largest hole so far, the first of several.
    pub best: Option<(u64, u64)>,
    /// The first hole that is large enough.
    pub hit: Option<(u64, u64)>,
}

/// The search once the hole that ends at `to`, if there is one, was looked at.
pub open spec fn see_hole(h: Holes, to: u64, wanted: u64) -> Holes {
    if h.hit is Some || to <= h.from {
        h
    } else if to - h.from >= wanted {
        Holes { hit: Some((h.from, wanted)), ..h }
    } else if h.best is None || to - h.from > h.best->Some_0.1 {
        Holes { best: Some((h.from, (to - h.from) as u64)), ..h }
    } else {
        h
    }
}

/// The search over extents in the order of their addresses.
pub open spec fn seek_hole(extents: Seq<(u64, u64)>, wanted: u64) -> Holes
    decreases extents.len(),
{
    if extents.len() == 0 {
        Holes { from: BTRFS_BLOCK_RESERVED_1M_FOR_SUPER, best: None, hit: None }
    } else {
        let h = seek_hole(extents.drop_last(), wanted);
        let (at, len) = extents.last();
        if h.hit is Some || len == 0 {
            h
        } else {
            let g = see_hole(h, at, wanted);
            if g.hit is Some {
                g
            } else {
                let end = cap64(at + len);
                Holes {
                    from: if end > g.from {
                        end
                    } else {
                        g.from
                    },
                    ..g
                }
            }
        }
    }
}

/// Where a chunk of `wanted` bytes goes on a device of `total` bytes, and how
/// long it gets: the first hole that is large enough; else the largest one, cut
/// to whole 64 KiB, if that comes to `least` bytes.
pub open spec fn hole_for(extents: Seq<(u64, u64)>, total: u64, wanted: u64, least: u64) -> Option<
    (u64, u64),
> {
    if total <= BTRFS_BLOCK_RESERVED_1M_FOR_SUPER {
        None
    } else {
        let h = see_hole(seek_hole(stable_sort(extents), wanted), total, wanted);
        match h.hit {
            Some(x) => Some(x),
            None => match h.best {
                None => None,
                Some((at, len)) => {
                    let usable = (len / SZ_64K * SZ_64K) as u64;
                    if usable >= least && usable > 0 {
                        Some((at, usable))
                    } else {
                        None
                    }
                },
            },
        }
    }
}

/// Whether `[at, at + len)` and an extent have an address in common.
pub open spec fn clash(at: int, len: int, e: (u64, u64)) -> bool {
    at < e.0 + e.1 && e.0 < at + len
}

spec fn hole_clear(s: Seq<(u64, u64)>, x: (u64, u64), total: u64) -> bool {
    &&& x.0 >= BTRFS_BLOCK_RESERVED_1M_FOR_SUPER
    &&& x.0 + x.1 <= total
    &&& forall|k: int| 0 <= k < s.len() && (#[trigger] s[k]).1 > 0 ==> !clash(
        x.0 as int,
        x.1 as int,
        s[k],
    )
}

spec fn search_sound(s: Seq<(u64, u64)>, h: Holes, total: u64) -> bool {
    &&& h.from >= BTRFS_BLOCK_RESERVED_1M_FOR_SUPER
    &&& h.hit is None ==> forall|k: int|
        0 <= k < s.len() && (#[trigger] s[k]).1 > 0 ==> s[k].0 + s[k].1 <= h.from
    &&& h.best is Some ==> hole_clear(s, h.best->Some_0, total)
    &&& h.hit is Some ==> hole_clear(s, h.hit->Some_0, total)
}

proof fn seek_hole_sound(s: Seq<(u64, u64)>, wanted: u64, total: u64)
    requires
        forall|i: int, j: int| 0 <= i <= j < s.len() ==> s[i].0 <= s[j].0,
        forall|k: int| 0 <= k < s.len() ==> (#[trigger] s[k]).0 + s[k].1 <= total,
    ensures
        search_sound(s, seek_hole(s, wanted), total),
    decreases s.len(),
{
    if s.len() > 0 {
        let p = s.drop_last();
        assert forall|i: int, j: int| 0 <= i <= j < p.len() implies p[i].0 <= p[j].0 by {
            assert(s[i].0 <= s[j].0);
        }
        assert forall|k: int| 0 <= k < p.len() implies (#[trigger] p[k]).0 + p[k].1 <= total by {
            assert(s[k].0 + s[k].1 <= total);
        }
        seek_hole_sound(p, wanted, total);
        let h = seek_hole(p, wanted);
        let g = seek_hole(s, wanted);
        let (at, len) = s.last();
        assert forall|k: int| 0 <= k < p.len() implies s[k] == p[k] && s[k].0 <= at by {
            assert(s[k].0 <= s[s.len() - 1].0);
        }
        assert(s.last().0 + s.last().1 <= total);
        if h.best is Some {
            let x = h.best->Some_0;
            seek_step_keeps(s, p, x, wanted, total);
        }
        if h.hit is Some {
            let x = h.hit->Some_0;
            hit_step_keeps(s, p, x, wanted, total);
        }
        if g.hit is None {
            assert forall|k: int| 0 <= k < s.len() && (#[trigger] s[k]).1 > 0 implies s[k].0
                + s[k].1 <= g.from by {
                if k < p.len() {
                    assert(p[k] == s[k]);
                }
            }
        }
        if g.best is Some && g.best != h.best {
            let x = g.best->Some_0;
            assert forall|k: int| 0 <= k < s.len() && (#[trigger] s[k]).1 > 0 implies !clash(
                x.0 as int,
                x.1 as int,
                s[k],
            ) by {
                if k < p.len() {
                    assert(p[k] == s[k]);
                }
            }
        }
        if g.hit is Some && g.hit != h.hit {
            let x = g.hit->Some_0;
            assert forall|k: int| 0 <= k < s.len() && (#[trigger] s[k]).1 > 0 implies !clash(
                x.0 as int,
                x.1 as int,
                s[k],
            ) by {
                if k < p.len() {
                    assert(p[k] == s[k]);
                }
            }
        }
    }
}

proof fn seek_step_keeps(
    s: Seq<(u64, u64)>,
    p: Seq<(u64, u64)>,
    x: (u64, u64),
    wanted: u64,
    total: u64,
)
    requires
        s.len() > 0,
        p == s.drop_last(),
        forall|i: int, j: int| 0 <= i <= j < s.len() ==> s[i].0 <= s[j].0,
        seek_hole(p, wanted).best == Some(x),
        hole_clear(p, x, total),
    ensures
        hole_clear(s, x, total),
{
    best_below(p, wanted);
    assert forall|k: int| 0 <= k < s.len() && (#[trigger] s[k]).1 > 0 implies !clash(
        x.0 as int,
        x.1 as int,
        s[k],
    ) by {
        if k < p.len() {
            assert(p[k] == s[k]);
        } else {
            let b = choose|b: int|
                0 <= b < p.len() && x.0 + x.1 <= (#[trigger] p[b]).0;
            assert(p[b] == s[b]);
            assert(s[b].0 <= s[k].0);
        }
    }
}

proof fn hit_step_keeps(
    s: Seq<(u64, u64)>,
    p: Seq<(u64, u64)>,
    x: (u64, u64),
    wanted: u64,
    total: u64,
)
    requires
        s.len() > 0,
        p == s.drop_last(),
        forall|i: int, j: int| 0 <= i <= j < s.len() ==> s[i].0 <= s[j].0,
        seek_hole(p, wanted).hit == Some(x),
        hole_clear(p, x, total),
    ensures
        hole_clear(s, x, total),
{
    best_below(p, wanted);
    assert forall|k: int| 0 <= k < s.len() && (#[trigger] s[k]).1 > 0 implies !clash(
        x.0 as int,
        x.1 as int,
        s[k],
    ) by {
        if k < p.len() {
            assert(p[k] == s[k]);
        } else {
            let b = choose|b: int|
                0 <= b < p.len() && x.0 + x.1 <= (#[trigger] p[b]).0;
            assert(p[b] == s[b]);
            assert(s[b].0 <= s[k].0);
        }
    }
}

proof fn best_below(s: Seq<(u64, u64)>, wanted: u64)
    ensures
        seek_hole(s, wanted).best matches Some(x) ==> exists|b: int|
            0 <= b < s.len() && x.0 + x.1 <= (#[trigger] s[b]).0,
        seek_hole(s, wanted).hit matches Some(x) ==> exists|b: int|
            0 <= b < s.len() && x.0 + x.1 <= (#[trigger] s[b]).0,
    decreases s.len(),
{
    if s.len() > 0 {
        let p = s.drop_last();
        best_below(p, wanted);
        let h = seek_hole(p, wanted);
        let g = seek_hole(s, wanted);
        if g.best is Some {
            let x = g.best->Some_0;
            if g.best == h.best {
                let b = choose|b: int| 0 <= b < p.len() && x.0 + x.1 <= (#[trigger] p[b]).0;
                assert(s[b] == p[b]);
            } else {
                assert(x.0 + x.1 <= s[s.len() - 1].0);
            }
        }
        if g.hit is Some {
            let x = g.hit->Some_0;
            if g.hit == h.hit {
                let b = choose|b: int| 0 <= b < p.len() && x.0 + x.1 <= (#[trigger] p[b]).0;
                assert(s[b] == p[b]);
            } else {
                assert(x.0 + x.1 <= s[s.len() - 1].0);
            }
        }
    }
}

/// The hole for a chunk is free: it lies behind the reserved start and within
/// the device, and meets no extent.
pub proof fn hole_is_free(extents: Seq<(u64, u64)>, total: u64, wanted: u64, least: u64, k: int)
    requires
        hole_for(extents, total, wanted, least) is Some,
        forall|j: int| 0 <= j < extents.len() ==> (#[trigger] extents[j]).0 + extents[j].1 <= total,
        0 <= k < extents.len(),
        extents[k].1 > 0,
    ensures
        ({
            let x = hole_for(extents, total, wanted, least)->Some_0;
            &&& x.0 >= BTRFS_BLOCK_RESERVED_1M_FOR_SUPER
            &&& x.0 + x.1 <= total
            &&& !clash(x.0 as int, x.1 as int, extents[k])
        }),
{
    broadcast use vstd::seq_lib::group_to_multiset_ensures;

    let s = stable_sort(extents);
    stable_sort_sorts(extents);
    assert(extents.contains(extents[k]));
    assert(extents.to_multiset().count(extents[k]) > 0);
    assert(s.contains(extents[k]));
    let i = choose|i: int| 0 <= i < s.len() && s[i] == extents[k];
    assert forall|a: int, b: int| 0 <= a <= b < s.len() implies s[a].0 <= s[b].0 by {
        assert(ascending(s));
        assert(crate::sort::Ranked::rank(&s[a]) <= crate::sort::Ranked::rank(&s[b]));
    }
    assert forall|j: int| 0 <= j < s.len() implies (#[trigger] s[j]).0 + s[j].1 <= total by {
        assert(s.contains(s[j]));
        assert(s.to_multiset().count(s[j]) > 0);
        assert(extents.contains(s[j]));
        let m = choose|m: int| 0 <= m < extents.len() && extents[m] == s[j];
        assert(extents[m].0 + extents[m].1 <= total);
    }
    seek_hole_sound(s, wanted, total);
    let h = seek_hole(s, wanted);
    let g = see_hole(h, total, wanted);
    let x = hole_for(extents, total, wanted, least)->Some_0;
    if g.hit is Some {
        if h.hit is Some {
            assert(!clash(x.0 as int, x.1 as int, s[i]));
        } else {
            assert(s[i].0 + s[i].1 <= h.from);
        }
    } else {
        let y = g.best->Some_0;
        if g.best == h.best {
            assert(!clash(y.0 as int, y.1 as int, s[i]));
        } else {
            assert(s[i].0 + s[i].1 <= h.from);
        }
        assert(x.0 == y.0 && x.1 <= y.1);
    }
}

fn look_at_hole(h: &mut (u64, Option<(u64, u64)>), to: u64, wanted: u64) -> (hit: Option<(u64, u64)>)
    ensures
        see_hole(Holes { from: old(h).0, best: old(h).1, hit: None }, to, wanted) == (Holes {
            from: final(h).0,
            best: final(h).1,
            hit,
        }),
        final(h).0 == old(h).0,
{
    if to <= h.0 {
        return None;
    }
    let len: u64 = to - h.0;
    if len >= wanted {
        return Some((h.0, wanted));
    }
    let larger: bool = match h.1 {
        None => true,
        Some(b) => len > b.1,
    };
    if larger {
        h.1 = Some((h.0, len));
    }
    None
}

/// Find a hole on the device for a chunk.
pub fn find_free_dev_extent(
    dev_extents: &[(u64, u64)],
    total_dev_bytes: u64,
    requested_chunk_size: u64,
    min_stripe_size: u64,
) -> (r: Result<(u64, u64)>)
    ensures
        match r {
            Ok(x) => hole_for(
                dev_extents@,
                total_dev_bytes,
                requested_chunk_size,
                min_stripe_size,
            ) == Some(x),
            Err(e) => hole_for(
                dev_extents@,
                total_dev_bytes,
                requested_chunk_size,
                min_stripe_size,
            ) is None && e@ == Fault::FilesystemFull,
        },
{
    if total_dev_bytes <= BTRFS_BLOCK_RESERVED_1M_FOR_SUPER {
        return Err(LuksError::FilesystemFull);
    }
    let mut sorted: Vec<(u64, u64)> = Vec::new();
    let n: usize = dev_extents.len();
    let mut c: usize = 0;
    while c < n
        invariant
            c <= n,
            n == dev_extents@.len(),
            sorted@ =~= dev_extents@.take(c as int),
        decreases n - c,
    {
        sorted.push(dev_extents[c]);
        c += 1;
    }
    assert(dev_extents@.take(n as int) =~= dev_extents@);
    sort_ranked(&mut sorted);
    let ghost s = sorted@;
    proof {
        stable_sort_sorts(dev_extents@);
    }
    let mut h: (u64, Option<(u64, u64)>) = (BTRFS_BLOCK_RESERVED_1M_FOR_SUPER, None);
    let mut i: usize = 0;
    assert(s.take(0) =~= Seq::<(u64, u64)>::empty());
    while i < n
        invariant
            i <= n,
            n == s.len(),
            s == sorted@,
            s == stable_sort(dev_extents@),
            total_dev_bytes > BTRFS_BLOCK_RESERVED_1M_FOR_SUPER,
            seek_hole(s.take(i as int), requested_chunk_size) == (Holes {
                from: h.0,
                best: h.1,
                hit: None,
            }),
        decreases n - i,
    {
        let (at, len) = sorted[i];
        proof {
            assert(s.take(i + 1).drop_last() =~= s.take(i as int));
            assert(s.take(i + 1).last() == s[i as int]);
        }
        if len > 0 {
            if let Some(hit) = look_at_hole(&mut h, at, requested_chunk_size) {
                proof {
                    seek_hole_hit(s, requested_chunk_size, i + 1);
                }
                return Ok(hit);
            }
            let end: u64 = at.saturating_add(len);
            if end > h.0 {
                h.0 = end;
            }
        }
        i += 1;
    }
    assert(s.take(n as int) =~= s);
    if let Some(hit) = look_at_hole(&mut h, total_dev_bytes, requested_chunk_size) {
        return Ok(hit);
    }
    if let Some((at, len)) = h.1 {
        let usable: u64 = (len / SZ_64K) * SZ_64K;
        if usable >= min_stripe_size && usable > 0 {
            return Ok((at, usable));
        }
    }
    Err(LuksError::FilesystemFull)
}

proof fn seek_hole_hit(s: Seq<(u64, u64)>, wanted: u64, n: int)
    requires
        0 <= n <= s.len(),
        seek_hole(s.take(n), wanted).hit is Some,
    ensures
        seek_hole(s, wanted) == seek_hole(s.take(n), wanted),
    decreases s.len() - n,
{
    if n == s.len() {
        assert(s.take(n) =~= s);
    } else {
        assert(s.take(n + 1).drop_last() =~= s.take(n));
        seek_hole_hit(s, wanted, n + 1);
    }
}

/// The extents of device `devid` among items of the device tree.
pub open spec fn listed_extents(items: Seq<Item>, devid: u64) -> Outcome<Seq<(u64, u64)>>
    decreases items.len(),
{
    if items.len() == 0 {
        Ok(Seq::empty())
    } else {
        match listed_extents(items.drop_last(), devid) {
            Err(e) => Err(e),
            Ok(s) => {
                let it = items.last();
                if it.key.item_type == DEV_EXTENT_KEY && it.key.objectid == devid {
                    if it.data.len() < 48 {
                        Err(Fault::CorruptFs("btrfs device extent truncated"@))
                    } else {
                        Ok(s.push((it.key.offset, le64(it.data, 24))))
                    }
                } else {
                    Ok(s)
                }
            },
        }
    }
}

proof fn listed_extents_err(items: Seq<Item>, devid: u64, n: int)
    requires
        0 <= n <= items.len(),
        listed_extents(items.take(n), devid) is Err,
    ensures
        listed_extents(items, devid) == listed_extents(items.take(n), devid),
    decreases items.len() - n,
{
    if n == items.len() {
        assert(items.take(n) =~= items);
    } else {
        assert(items.take(n + 1).drop_last() =~= items.take(n));
        listed_extents_err(items, devid, n + 1);
    }
}

/// The extents of device `devid`, sorted by address.
pub open spec fn dev_extents(fs: FsV, devid: u64) -> Outcome<Seq<(u64, u64)>> {
    match root_of(fs, DEV_TREE_OBJECTID) {
        Err(e) => Err(e),
        Ok(root) => match all_items(fs, root.bytenr) {
            Err(e) => Err(e),
            Ok(items) => match listed_extents(items, devid) {
                Err(e) => Err(e),
                Ok(s) => Ok(stable_sort(s)),
            },
        },
    }
}

/// Read the extents of device `devid`.
pub fn read_dev_extents<D: ReadAt>(fs: &Btrfs<D>, devid: u64) -> (r: Result<Vec<(u64, u64)>>)
    ensures
        agrees(fs.steady(), r, dev_extents(fs@, devid), |v: Vec<(u64, u64)>| v@),
{
    let root = fs.tree_root(DEV_TREE_OBJECTID)?;
    let items = walk_tree(fs, root.bytenr)?;
    let ghost all = items_of(items@);
    let n: usize = items.len();
    let mut v: Vec<(u64, u64)> = Vec::new();
    let mut i: usize = 0;
    assert(all.take(0) =~= Seq::<Item>::empty());
    while i < n
        invariant
            i <= n,
            n == items@.len(),
            all == items_of(items@),
            root_of(fs@, DEV_TREE_OBJECTID) == Ok::<TreeRoot, Fault>(root),
            all_items(fs@, root.bytenr) == Ok::<Seq<Item>, Fault>(all),
            listed_extents(all.take(i as int), devid) == Ok::<Seq<(u64, u64)>, Fault>(v@),
        decreases n - i,
    {
        let it = &items[i];
        proof {
            assert(all.take(i + 1).drop_last() =~= all.take(i as int));
            assert(all.take(i + 1).last() == it@);
            if listed_extents(all.take(i + 1), devid) is Err {
                listed_extents_err(all, devid, i + 1);
            }
        }
        if it.key.item_type == DEV_EXTENT_KEY && it.key.objectid == devid {
            let x = DevExtent::parse(&it.key, it.data.as_slice())?;
            v.push((x.physical_offset, x.length));
        }
        i += 1;
    }
    assert(all.take(n as int) =~= all);
    sort_ranked(&mut v);
    Ok(v)
}

/// The uuid of device `devid` in the first of `stripes` on it.
pub open spec fn stripe_uuid(stripes: Seq<Stripe>, devid: u64) -> Option<[u8; 16]>
    decreases stripes.len(),
{
    if stripes.len() == 0 {
        None
    } else if stripes[0].devid == devid {
        Some(stripes[0].dev_uuid)
    } else {
        stripe_uuid(stripes.skip(1), devid)
    }
}

/// The uuid of device `devid` in the first chunk that has a stripe on it.
pub open spec fn device_uuid(chunks: Seq<ChunkV>, devid: u64) -> Option<[u8; 16]>
    decreases chunks.len(),
{
    if chunks.len() == 0 {
        None
    } else {
        match stripe_uuid(chunks[0].stripes, devid) {
            Some(u) => Some(u),
            None => device_uuid(chunks.skip(1), devid),
        }
    }
}

fn find_stripe_uuid(stripes: &Vec<Stripe>, devid: u64) -> (r: Option<[u8; 16]>)
    ensures
        r == stripe_uuid(stripes@, devid),
{
    let n: usize = stripes.len();
    let mut i: usize = 0;
    assert(stripes@.skip(0) =~= stripes@);
    while i < n
        invariant
            i <= n,
            n == stripes@.len(),
            stripe_uuid(stripes@, devid) == stripe_uuid(stripes@.skip(i as int), devid),
        decreases n - i,
    {
        assert(stripes@.skip(i as int)[0] == stripes@[i as int]);
        assert(stripes@.skip(i as int).skip(1) =~= stripes@.skip(i + 1));
        if stripes[i].devid == devid {
            return Some(stripes[i].dev_uuid);
        }
        i += 1;
    }
    None
}

fn find_device_uuid(map: &ChunkMap, devid: u64) -> (r: Option<[u8; 16]>)
    ensures
        r == device_uuid(map@, devid),
{
    let chunks = map.chunks();
    let ghost all = map@;
    let n: usize = chunks.len();
    let mut i: usize = 0;
    assert(all.skip(0) =~= all);
    while i < n
        invariant
            i <= n,
            n == chunks@.len(),
            all == chunks_of(chunks@),
            all == map@,
            device_uuid(all, devid) == device_uuid(all.skip(i as int), devid),
        decreases n - i,
    {
        assert(all.skip(i as int)[0] == chunks@[i as int]@);
        assert(all.skip(i as int).skip(1) =~= all.skip(i + 1));
        if let Some(u) = find_stripe_uuid(&chunks[i].stripes, devid) {
            return Some(u);
        }
        i += 1;
    }
    None
}

/// A new chunk: where it goes, and what its items name.
pub struct NewChunk {
    pub logical: u64,
    pub physical: u64,
    pub len: u64,
    pub chunk_tree_uuid: Seq<u8>,
    pub dev_uuid: [u8; 16],
}

/// Whether a chunk can be allocated at all; `shape` says whether the lookup of
/// the free-space tree went through.
pub open spec fn chunk_refusal(fs: FsV, shape: bool) -> Option<Fault> {
    match fs_refusal(fs.sb) {
        Some(e) => Some(e),
        None => match profile_refusal(BLOCK_GROUP_DATA) {
            Some(e) => Some(e),
            None => match bitmap_refusal(fs) {
                Some(e) => Some(e),
                None => if has_space_tree(fs) {
                    match optional_root(fs, FREE_SPACE_TREE_OBJECTID, shape) {
                        Some(root) => shape_refusal(root),
                        None => None,
                    }
                } else {
                    None
                },
            },
        },
    }
}

/// Where a new chunk goes.
pub open spec fn new_chunk_of(fs: FsV) -> Outcome<NewChunk> {
    match dev_extents(fs, fs.sb.dev_id) {
        Err(e) => Err(e),
        Ok(extents) => match hole_for(
            extents,
            fs.sb.total_bytes,
            data_chunk_size(fs.sb.total_bytes) as u64,
            MIN_STRIPE_SIZE_FLOOR,
        ) {
            None => Err(Fault::FilesystemFull),
            Some((physical, len)) => if len < MIN_STRIPE_SIZE_FLOOR {
                Err(Fault::FilesystemFull)
            } else {
                match disk_node(fs, fs.sb.chunk_root) {
                    Err(e) => Err(e),
                    Ok(node) => match device_uuid(fs.chunks, fs.sb.dev_id) {
                        None => Err(Fault::CorruptFs("no existing chunk found for device id"@)),
                        Some(dev_uuid) => Ok(
                            NewChunk {
                                logical: logical_end(fs.chunks),
                                physical,
                                len,
                                chunk_tree_uuid: node.chunk_tree_uuid,
                                dev_uuid,
                            },
                        ),
                    },
                }
            },
        },
    }
}

/// The chunk itself.
pub open spec fn chunk_of(fs: FsV, n: NewChunk) -> ChunkV {
    ChunkV {
        logical: n.logical,
        length: n.len,
        owner: EXTENT_TREE_OBJECTID,
        stripe_len: 65536,
        chunk_type: BLOCK_GROUP_DATA,
        io_align: 65536,
        io_width: 65536,
        sector_size: 4096,
        sub_stripes: 1,
        stripes: seq![Stripe { devid: fs.sb.dev_id, offset: n.physical, dev_uuid: n.dev_uuid }],
    }
}

/// The block group of a new chunk.
pub open spec fn group_of_chunk(n: NewChunk, groups: Seq<BlockGroupItem>) -> BlockGroupItem {
    BlockGroupItem {
        start: n.logical,
        length: n.len,
        used: 0,
        chunk_objectid: if groups.len() > 0 {
            groups[0].chunk_objectid
        } else {
            FIRST_CHUNK_TREE_OBJECTID
        },
        flags: BLOCK_GROUP_DATA,
    }
}

/// The free space of a new block group: all of it.
pub open spec fn empty_group(g: BlockGroupItem) -> BgV {
    BgV {
        group: g,
        extents: Seq::empty(),
        free: seq![FreeRange { start: g.start, length: g.length }],
        pinned: Seq::empty(),
        excluded: Seq::empty(),
        total_allocated: 0,
        total_free: g.length,
    }
}

/// Ranges to be kept clear.
pub open spec fn reserved_ranges(reserved: Seq<(u64, u64)>) -> Seq<Range<u64>> {
    reserved.map_values(|x: (u64, u64)| Range { start: x.0, end: cap64(x.0 + x.1) })
}

/// The change of the device tree.
pub open spec fn dev_tree_ops(fs: FsV, n: NewChunk) -> Seq<OpV> {
    seq![
        OpV::Insert {
            key: Key { objectid: fs.sb.dev_id, item_type: DEV_EXTENT_KEY, offset: n.physical },
            data: dev_extent_bytes(n.logical, n.len, n.chunk_tree_uuid),
        },
    ]
}

/// The changes of the chunk tree.
pub open spec fn chunk_tree_ops(fs: FsV, n: NewChunk) -> Seq<OpV> {
    seq![
        OpV::Edit {
            key: Key {
                objectid: DEV_ITEMS_OBJECTID,
                item_type: DEV_ITEM_KEY,
                offset: fs.sb.dev_id,
            },
            edit: EditV::DevUsed { more: n.len },
        },
        OpV::Insert {
            key: Key {
                objectid: FIRST_CHUNK_TREE_OBJECTID,
                item_type: CHUNK_ITEM_KEY,
                offset: n.logical,
            },
            data: chunk_bytes(chunk_of(fs, n)),
        },
    ]
}

/// The change of the extent tree.
pub open spec fn group_ops(g: BlockGroupItem) -> Seq<OpV> {
    seq![
        OpV::Insert {
            key: Key { objectid: g.start, item_type: BLOCK_GROUP_ITEM_KEY, offset: g.length },
            data: block_group_bytes(g),
        },
    ]
}

/// The transaction that allocates the chunk `n`; metadata keeps clear of
/// `reserved`.
pub open spec fn chunk_written(fs: FsV, n: NewChunk, reserved: Seq<(u64, u64)>, fst: bool) -> Outcome<
    TxnV,
> {
    let g = next_generation(fs);
    match extent_tree_of(fs) {
        Err(e) => Err(e),
        Ok(t) => match allocator_of(t, fs.chunks) {
            Err(e) => Err(e),
            Ok(space) => match root_of(fs, DEV_TREE_OBJECTID) {
                Err(e) => Err(e),
                Ok(dev) => match steps(
                    fs,
                    g,
                    DEV_TREE_OBJECTID,
                    fresh_state(exclude(space, reserved_ranges(reserved))),
                    (dev.bytenr, dev.level),
                    dev_tree_ops(fs, n),
                ) {
                    Err(e) => Err(e),
                    Ok((s1, dev_root)) => match steps(
                        fs,
                        g,
                        CHUNK_TREE_OBJECTID,
                        s1,
                        (fs.sb.chunk_root, fs.sb.chunk_root_level),
                        chunk_tree_ops(fs, n),
                    ) {
                        Err(e) => Err(e),
                        Ok((s2, chunk_root)) => match root_of(fs, EXTENT_TREE_OBJECTID) {
                            Err(e) => Err(e),
                            Ok(ext) => {
                                let bg = group_of_chunk(n, t.block_groups);
                                match steps(
                                    fs,
                                    g,
                                    EXTENT_TREE_OBJECTID,
                                    s2,
                                    (ext.bytenr, ext.level),
                                    group_ops(bg),
                                ) {
                                    Err(e) => Err(e),
                                    Ok((s3, extent_root)) => finalized(
                                        fs,
                                        ChangesV {
                                            generation: g,
                                            fs_tree: fs.fs_tree,
                                            csum_root: None,
                                            dev_root: Some(dev_root),
                                            chunk_root: Some(chunk_root),
                                            extent_root: Some(extent_root),
                                            data: Seq::empty(),
                                            added: Seq::empty(),
                                            dropped: Seq::empty(),
                                        },
                                        StateV {
                                            space: exclude(
                                                s3.space.push(empty_group(bg)),
                                                sb_exclusions(
                                                    with_chunk(fs.chunks, chunk_of(fs, n)),
                                                ),
                                            ),
                                            ..s3
                                        },
                                        fst,
                                    ),
                                }
                            },
                        },
                    },
                },
            },
        },
    }
}

/// The transaction that allocates a data chunk, and the chunk; metadata keeps
/// clear of `reserved`.
pub open spec fn chunk_allocated(fs: FsV, reserved: Seq<(u64, u64)>, seen: Lookups) -> Outcome<
    (TxnV, ChunkV),
> {
    match chunk_refusal(fs, seen.shape) {
        Some(e) => Err(e),
        None => match new_chunk_of(fs) {
            Err(e) => Err(e),
            Ok(n) => match chunk_written(fs, n, reserved, seen.fst) {
                Err(e) => Err(e),
                Ok(t) => Ok((t, chunk_of(fs, n))),
            },
        },
    }
}

fn check_chunk_allowed<D: ReadAt>(fs: &Btrfs<D>) -> (r: Result<()>)
    ensures
        exists|shape: bool| #[trigger]
            looked_up(fs.steady(), shape) && match r {
                Ok(_) => chunk_refusal(fs@, shape) is None,
                Err(e) => chunk_refusal(fs@, shape) == Some(e@) || (!fs.steady() && e@ is Io),
            },
{
    assert(looked_up(fs.steady(), true));
    assert(!fs.steady() ==> looked_up(fs.steady(), false));
    check_writeable_fs(fs.superblock())?;
    check_chunk_allocation_profile(BLOCK_GROUP_DATA)?;
    check_free_space_tree_no_bitmaps(fs)?;
    if fs.superblock().compat_ro_flags & BTRFS_FEATURE_COMPAT_RO_FREE_SPACE_TREE != 0 {
        if let Some(root) = fs.find_root(FREE_SPACE_TREE_OBJECTID) {
            check_free_space_tree_shape(&root)?;
        }
    }
    Ok(())
}

/// A new chunk: where it goes, and what its items name.
struct Site {
    logical: u64,
    physical: u64,
    len: u64,
    chunk_tree_uuid: [u8; 16],
    dev_uuid: [u8; 16],
}

impl View for Site {
    type V = NewChunk;

    closed spec fn view(&self) -> NewChunk {
        NewChunk {
            logical: self.logical,
            physical: self.physical,
            len: self.len,
            chunk_tree_uuid: self.chunk_tree_uuid@,
            dev_uuid: self.dev_uuid,
        }
    }
}

fn find_site<D: ReadAt>(fs: &Btrfs<D>) -> (r: Result<Site>)
    ensures
        tracks(fs.steady(), r, new_chunk_of(fs@)),
{
    let sb = fs.superblock();
    let logical: u64 = next_logical(fs.chunk_map());
    let devid: u64 = sb.dev_id;
    let extents = read_dev_extents(fs, devid)?;
    let size: u64 = decide_data_chunk_size(sb.total_bytes);
    let (physical, len) = find_free_dev_extent(
        extents.as_slice(),
        sb.total_bytes,
        size,
        MIN_STRIPE_SIZE_FLOOR,
    )?;
    if len < MIN_STRIPE_SIZE_FLOOR {
        return Err(LuksError::FilesystemFull);
    }
    let chunk_tree_uuid = fs.chunk_tree_uuid()?;
    match find_device_uuid(fs.chunk_map(), devid) {
        None => Err(LuksError::CorruptFs("no existing chunk found for device id")),
        Some(dev_uuid) => Ok(Site { logical, physical, len, chunk_tree_uuid, dev_uuid }),
    }
}

fn to_reserved(reserved: &[(u64, u64)]) -> (r: Vec<Range<u64>>)
    ensures
        r@ == reserved_ranges(reserved@),
{
    let n: usize = reserved.len();
    let mut v: Vec<Range<u64>> = Vec::new();
    let mut i: usize = 0;
    while i < n
        invariant
            i <= n,
            n == reserved@.len(),
            v@ =~= reserved_ranges(reserved@.take(i as int)),
        decreases n - i,
    {
        v.push(reserved[i].0..reserved[i].0.saturating_add(reserved[i].1));
        i += 1;
    }
    assert(reserved@.take(n as int) =~= reserved@);
    v
}

fn write_chunk_items<D: ReadAt>(fs: &Btrfs<D>, n: &Site, chunk: &Chunk, reserved: &[(u64, u64)]) -> (r:
    Result<Transaction>)
    requires
        chunk@ == chunk_of(fs@, n@),
    ensures
        exists|fst: bool| #[trigger]
            looked_up(fs.steady(), fst) && tracks(
                fs.steady(),
                r,
                chunk_written(fs@, n@, reserved@, fst),
            ),
{
    assert(looked_up(fs.steady(), true));
    let sb = fs.superblock();
    let generation: u64 = new_generation(fs);
    let t = ExtentTree::read(fs)?;
    let mut allocator = FreeSpaceMap::from_extent_tree_and_chunk_map(&t, fs.chunk_map())?;
    let clear = to_reserved(reserved);
    allocator.exclude_ranges(clear.as_slice());
    let mut w = Workspace::new(allocator);

    let dev = fs.tree_root(DEV_TREE_OBJECTID)?;
    let extent = DevExtent::new(sb.dev_id, n.physical, n.logical, n.len, n.chunk_tree_uuid);
    let (key, data) = extent.emit();
    let mut ops: Vec<TreeOp> = Vec::new();
    ops.push(TreeOp::Insert { key, data });
    assert(ops_of(ops@) =~= dev_tree_ops(fs@, n@));
    let dev_root = w.apply_all(
        fs,
        generation,
        DEV_TREE_OBJECTID,
        (dev.bytenr, dev.level),
        &ops,
    )?;

    let mut ops: Vec<TreeOp> = Vec::new();
    ops.push(
        TreeOp::Edit {
            key: Key::new(DEV_ITEMS_OBJECTID, DEV_ITEM_KEY, sb.dev_id),
            edit: LeafEdit::DevUsed { more: n.len },
        },
    );
    let (key, data) = chunk.emit();
    ops.push(TreeOp::Insert { key, data });
    assert(ops_of(ops@) =~= chunk_tree_ops(fs@, n@));
    let chunk_root = w.apply_all(
        fs,
        generation,
        CHUNK_TREE_OBJECTID,
        (sb.chunk_root, sb.chunk_root_level),
        &ops,
    )?;

    let ext = fs.tree_root(EXTENT_TREE_OBJECTID)?;
    let group = BlockGroupItem {
        start: n.logical,
        length: n.len,
        used: 0,
        chunk_objectid: if t.block_groups.len() > 0 {
            t.block_groups[0].chunk_objectid
        } else {
            FIRST_CHUNK_TREE_OBJECTID
        },
        flags: BLOCK_GROUP_DATA,
    };
    assert(group == group_of_chunk(n@, t@.block_groups));
    let (key, data) = group.emit();
    let mut ops: Vec<TreeOp> = Vec::new();
    ops.push(TreeOp::Insert { key, data });
    assert(ops_of(ops@) =~= group_ops(group));
    let extent_root = w.apply_all(
        fs,
        generation,
        EXTENT_TREE_OBJECTID,
        (ext.bytenr, ext.level),
        &ops,
    )?;

    let mut free: Vec<FreeRange> = Vec::new();
    free.push(FreeRange { start: n.logical, length: n.len });
    let fresh = BlockGroupFreeSpace {
        block_group: group,
        allocated_extents: Vec::new(),
        free_ranges: free,
        pinned_freed: Vec::new(),
        excluded_ranges: Vec::new(),
        total_allocated_bytes: 0,
        total_free_bytes: n.len,
    };
    assert(fresh@ =~= empty_group(group)) by {
        assert(allocs_of(fresh.allocated_extents@) =~= Seq::<AllocV>::empty());
        assert(fresh.free_ranges@ =~= seq![FreeRange { start: group.start, length: group.length }]);
    }
    let ghost s3 = w@;
    w.allocator.block_groups.push(fresh);
    assert(w.allocator@ =~= s3.space.push(empty_group(group)));
    let mut map = fs.chunk_map().clone();
    map.insert(chunk.clone());
    let exclusions = compute_sb_exclusions(&map);
    w.allocator.exclude_ranges(exclusions.as_slice());
    assert(w@ == (StateV { space: w.allocator@, ..s3 }));

    let data: Vec<(u64, Vec<u8>)> = Vec::new();
    assert(pairs_of(data@) =~= Seq::<(u64, Seq<u8>)>::empty());
    let c = Changes {
        generation,
        fs_tree: fs.fs_tree(),
        csum_root: None,
        dev_root: Some(dev_root),
        chunk_root: Some(chunk_root),
        extent_root: Some(extent_root),
        data,
        added: Vec::new(),
        dropped: Vec::new(),
    };
    converge_and_finalize(fs, c, w)
}

/// Prepare a transaction that allocates a data chunk.
pub fn allocate_data_chunk_transaction<D: ReadAt>(fs: &Btrfs<D>) -> (r: Result<
    (Transaction, Chunk),
>)
    ensures
        tracks_some(
            fs.steady(),
            r,
            |seen: Lookups| chunk_allocated(fs@, Seq::empty(), seen),
        ),
{
    let none: Vec<(u64, u64)> = Vec::new();
    assert(none@ =~= Seq::<(u64, u64)>::empty());
    allocate_data_chunk_transaction_excluding(fs, none.as_slice())
}

/// Prepare a transaction that allocates a data chunk, with its metadata kept
/// clear of the `reserved` ranges (address and length).
pub fn allocate_data_chunk_transaction_excluding<D: ReadAt>(
    fs: &Btrfs<D>,
    reserved: &[(u64, u64)],
) -> (r: Result<(Transaction, Chunk)>)
    ensures
        tracks_some(
            fs.steady(),
            r,
            |seen: Lookups| chunk_allocated(fs@, reserved@, seen),
        ),
{
    assert(possible(fs.steady(), Lookups { csum: true, fst: true, shape: true }));
    let allowed = check_chunk_allowed(fs);
    let ghost shape = choose|shape: bool| #[trigger]
        looked_up(fs.steady(), shape) && match allowed {
            Ok(_) => chunk_refusal(fs@, shape) is None,
            Err(e) => chunk_refusal(fs@, shape) == Some(e@) || (!fs.steady() && e@ is Io),
        };
    assert(possible(fs.steady(), Lookups { csum: true, fst: true, shape }));
    allowed?;
    let n = find_site(fs)?;
    let chunk = Chunk::new_single(
        n.logical,
        n.len,
        BLOCK_GROUP_DATA,
        fs.superblock().dev_id,
        n.physical,
        n.dev_uuid,
    );
    let r = write_chunk_items(fs, &n, &chunk, reserved);
    proof {
        let fst = choose|fst: bool| #[trigger]
            looked_up(fs.steady(), fst) && tracks(
                fs.steady(),
                r,
                chunk_written(fs@, n@, reserved@, fst),
            );
        assert(possible(fs.steady(), Lookups { csum: true, fst, shape }));
    }
    let t = r?;
    Ok((t, chunk))
}

} // verus!
