//! Space goes to what it is set apart for, and extents that something else refers
//! to are kept.

use vstd::prelude::*;

use crate::error::Fault;
use crate::fs::btrfs::extent::FileExtent;
use crate::fs::btrfs::files::{disk_item, object_items, resolved};
use crate::fs::btrfs::formats::{extent_reads_back, stores_extent};
use crate::fs::btrfs::tree::{Item, Key};
use crate::fs::btrfs::volume::FsV;
use crate::fs::btrfs::write::converge::Lookups;
use crate::fs::btrfs::write::ends::files_sound;
use crate::fs::btrfs::write::extent_tree::AllocV;
use crate::fs::btrfs::write::load::extent_tree_of;
use crate::fs::btrfs::write::ranges::{align_up, align_up_bounds, FreeRange};
use crate::fs::btrfs::write::space::{
    alloc_meta, alloc_run, best_run, best_run_props, fit, fit_idx, has_room, BgV,
};
use crate::fs::btrfs::write::sweep::{between, range_reads_contents};
use crate::fs::btrfs::write::tree_map::search_reads_contents;
use crate::fs::btrfs::write::txn::delete::file_deleted;
use crate::fs::btrfs::write::txn::files_root;
use crate::fs::btrfs::write::unlink::{begins_at, dedup, item_spans, shared_at, spans_of, Span};
use crate::fs::btrfs::write::workspace::fresh_state;
use crate::seqs::{first_idx, first_idx_is, first_idx_props};
use crate::sort::{stable_sort, stable_sort_sorts};

verus! {

/// The `n` bytes from `x` on lie in a free range.
pub open spec fn lies_in(r: FreeRange, x: int, n: int) -> bool {
    r.start <= x && x + n <= r.start + r.length
}

/// A block group that blocks of tree `owner` go to: those of the chunk tree (tree
/// 3) to groups with flag bit 1, those of all others to groups with bit 2.
pub open spec fn takes_blocks(b: BgV, owner: u64) -> bool {
    if owner == 3 {
        (b.group.flags / 2) % 2 == 1
    } else {
        (b.group.flags / 4) % 2 == 1
    }
}

/// A block group that data goes to: one with flag bit 0.
pub open spec fn takes_data(b: BgV) -> bool {
    b.group.flags % 2 == 1
}

proof fn flags_are_bits(f: u64)
    ensures
        (f & 1 != 0) == (f % 2 == 1),
        (f & 2 != 0) == ((f / 2) % 2 == 1),
        (f & 4 != 0) == ((f / 4) % 2 == 1),
{
    assert((f & 1 != 0) == (f % 2 == 1)) by (bit_vector);
    assert((f & 2 != 0) == ((f / 2) % 2 == 1)) by (bit_vector);
    assert((f & 4 != 0) == ((f / 4) % 2 == 1)) by (bit_vector);
}

/// A tree block is placed whole in free space of a group for such blocks.
pub proof fn block_goes_to_its_group(m: Seq<BgV>, size: u32, owner: u64) -> (at: (int, int))
    requires
        alloc_meta(m, size, owner) is Some,
    ensures
        0 <= at.0 < m.len(),
        0 <= at.1 < m[at.0].free.len(),
        takes_blocks(m[at.0], owner),
        lies_in(
            m[at.0].free[at.1],
            alloc_meta(m, size, owner)->Some_0.0 as int,
            size as int,
        ),
{
    reveal(alloc_meta);
    let flag: u64 = if owner == 3 {
        2
    } else {
        4
    };
    let g = first_idx(m, |b: BgV| has_room(b, flag, size as u64, size as u64));
    first_idx_props(m, |b: BgV| has_room(b, flag, size as u64, size as u64));
    let i = fit_idx(m[g].free, size as u64, size as u64);
    first_idx_props(
        m[g].free,
        |r: FreeRange| fit(r, size as u64, size as u64) is Some,
    );
    align_up_bounds(m[g].free[i].start, size as u64);
    flags_are_bits(m[g].group.flags);
    (g, i)
}

/// A tree block is placed where a group for such blocks has a free range of its
/// size that begins on a multiple of it.
pub proof fn block_finds_room(m: Seq<BgV>, size: u32, owner: u64, g: int, i: int)
    requires
        size > 0,
        0 <= g < m.len(),
        0 <= i < m[g].free.len(),
        takes_blocks(m[g], owner),
        m[g].free[i].start & (size - 1) as u64 == 0,
        m[g].free[i].length >= size,
        m[g].free[i].start + m[g].free[i].length <= u64::MAX,
    ensures
        alloc_meta(m, size, owner) is Some,
{
    reveal(alloc_meta);
    let flag: u64 = if owner == 3 {
        2
    } else {
        4
    };
    let a = size as u64;
    let r = m[g].free[i];
    let s = r.start;
    let k = (size - 1) as u64;
    flags_are_bits(m[g].group.flags);
    assert(s <= 0xFFFF_FFFF_FFFF_FFFFu64 - k && s & k == 0 ==> ((s + k) as u64) & !k == s)
        by (bit_vector);
    assert(fit(r, a, a) is Some);
    first_idx_props(m[g].free, |r: FreeRange| fit(r, a, a) is Some);
    assert(fit_idx(m[g].free, a, a) <= i) by {
        if fit_idx(m[g].free, a, a) > i {
            let f = |r: FreeRange| fit(r, a, a) is Some;
            assert(!f(m[g].free[i]));
        }
    }
    let room = |b: BgV| has_room(b, flag, a, a);
    first_idx_props(m, room);
    if first_idx(m, room) > g {
        assert(!room(m[g]));
    }
}

/// A data run is placed whole in free space of a group for data, is of whole
/// sectors, and not longer than was asked for.
pub proof fn run_goes_to_data(m: Seq<BgV>, max: u64, sector: u32) -> (at: (int, int))
    requires
        alloc_run(m, max, sector) is Some,
    ensures
        0 <= at.0 < m.len(),
        0 <= at.1 < m[at.0].free.len(),
        takes_data(m[at.0]),
        ({
            let (x, n, _) = alloc_run(m, max, sector)->Some_0;
            &&& lies_in(m[at.0].free[at.1], x as int, n as int)
            &&& 0 < n <= max
        }),
{
    reveal(alloc_run);
    let top = (max / sector as u64) * sector as u64;
    assert(top <= max) by (nonlinear_arith)
        requires
            sector > 0,
            top == (max / sector as u64) * sector as u64,
    ;
    best_run_props(m, top as int, sector as u64);
    let (g, i, n) = best_run(m, top as int, sector as u64);
    let r = m[g].free[i];
    align_up_bounds(r.start, sector as u64);
    flags_are_bits(m[g].group.flags);
    let x = align_up(r.start, sector as u64)->Some_0;
    let left = r.spec_end() - x;
    assert((left / sector as int) * sector <= left) by (nonlinear_arith)
        requires
            sector > 0,
            left >= 0,
    ;
    (g, i)
}

/// What stands in a list stands there once neighbours that are equal are dropped.
proof fn dedup_keeps(s: Seq<Span>, x: Span)
    requires
        s.contains(x),
    ensures
        dedup(s).contains(x),
    decreases s.len(),
{
    if s.len() > 1 {
        let i = choose|i: int| 0 <= i < s.len() && s[i] == x;
        let p = s.drop_last();
        if i < s.len() - 1 {
            assert(p[i] == x);
        } else if s.last() == s[s.len() - 2] {
            assert(p[s.len() - 2] == x);
        }
        if p.contains(x) {
            dedup_keeps(p, x);
            let q = dedup(p);
            let j = choose|j: int| 0 <= j < q.len() && q[j] == x;
            assert(dedup(s)[j] == x);
        } else {
            assert(dedup(s).last() == x);
        }
    }
}

proof fn spans_have(items: Seq<Item>, i: int, x: FileExtent)
    requires
        item_spans(items) is Ok,
        0 <= i < items.len(),
        items[i].key.item_type == 108,
        stores_extent(items[i].data, x),
        x.file_offset == items[i].key.offset,
        x.disk_bytenr != 0,
    ensures
        item_spans(items)->Ok_0.contains(Span { start: x.disk_bytenr, len: x.disk_num_bytes }),
    decreases items.len(),
{
    let span = Span { start: x.disk_bytenr, len: x.disk_num_bytes };
    let p = items.drop_last();
    if i < items.len() - 1 {
        assert(p[i] == items[i]);
        spans_have(p, i, x);
        let s = item_spans(p)->Ok_0;
        let j = choose|j: int| 0 <= j < s.len() && s[j] == span;
        assert(item_spans(items)->Ok_0[j] == span);
    } else {
        extent_reads_back(items[i].data, x);
        assert(item_spans(items)->Ok_0.last() == span);
    }
}

/// What an extent item of a file refers to is among the file's extents.
proof fn extent_is_listed(fs: FsV, ino: u64, items: Seq<Item>, x: FileExtent, d: Seq<u8>)
    requires
        files_sound(fs),
        object_items(fs, fs.fs_tree.bytenr, ino) == Ok::<Seq<Item>, Fault>(items),
        spans_of(items) is Ok,
        stores_extent(d, x),
        x.disk_bytenr != 0,
        disk_item(
            fs,
            fs.fs_tree.bytenr,
            Key { objectid: ino, item_type: 108, offset: x.file_offset },
        ) == Ok::<Option<Seq<u8>>, Fault>(Some(d)),
    ensures
        spans_of(items)->Ok_0.contains(Span { start: x.disk_bytenr, len: x.disk_num_bytes }),
{
    broadcast use vstd::seq_lib::group_to_multiset_ensures;

    let s = fresh_state(Seq::empty());
    let k = Key { objectid: ino, item_type: 108, offset: x.file_offset };
    let lo = Key { objectid: ino, item_type: 0, offset: 0 };
    let hi = Key { objectid: ino, item_type: 255, offset: u64::MAX };
    range_reads_contents(fs, s, files_root(fs), lo, hi);
    search_reads_contents(fs, s, files_root(fs), k);
    let it = Item { key: k, data: d };
    assert(between(k, lo, hi));
    assert(items.contains(it));
    let i = choose|i: int| 0 <= i < items.len() && items[i] == it;
    spans_have(items, i, x);
    let span = Span { start: x.disk_bytenr, len: x.disk_num_bytes };
    let raw = item_spans(items)->Ok_0;
    stable_sort_sorts(raw);
    assert(raw.to_multiset().count(span) > 0);
    assert(stable_sort(raw).contains(span));
    dedup_keeps(stable_sort(raw), span);
}

/// The record of the extent at `start`: the first that begins there.
pub open spec fn is_record(extents: Seq<AllocV>, i: int, start: u64) -> bool {
    &&& 0 <= i < extents.len()
    &&& extents[i].bytenr == start
    &&& forall|j: int| 0 <= j < i ==> (#[trigger] extents[j]).bytenr != start
}

/// A file is deleted only where nothing else refers to its data: each extent that
/// it has on the device is recorded with one reference at most.
pub proof fn shared_data_is_kept(
    fs: FsV,
    path: Seq<char>,
    sec: u64,
    nsec: u32,
    seen: Lookups,
    x: FileExtent,
    d: Seq<u8>,
    i: int,
)
    requires
        files_sound(fs),
        file_deleted(fs, path, sec, nsec, seen) is Ok,
        stores_extent(d, x),
        x.disk_bytenr != 0,
        disk_item(
            fs,
            fs.fs_tree.bytenr,
            Key {
                objectid: resolved(fs, fs.fs_tree, path)->Ok_0.inode.objectid,
                item_type: 108,
                offset: x.file_offset,
            },
        ) == Ok::<Option<Seq<u8>>, Fault>(Some(d)),
        is_record(extent_tree_of(fs)->Ok_0.extents, i, x.disk_bytenr),
    ensures
        extent_tree_of(fs)->Ok_0.extents[i].refs <= 1,
{
    let ino = resolved(fs, fs.fs_tree, path)->Ok_0.inode.objectid;
    let items = object_items(fs, fs.fs_tree.bytenr, ino)->Ok_0;
    let extents = extent_tree_of(fs)->Ok_0.extents;
    extent_is_listed(fs, ino, items, x, d);
    let spans = spans_of(items)->Ok_0;
    let span = Span { start: x.disk_bytenr, len: x.disk_num_bytes };
    let k = choose|k: int| 0 <= k < spans.len() && spans[k] == span;
    first_idx_is(extents, begins_at(x.disk_bytenr), i);
    assert(!shared_at(extents, spans[k].start));
}

} // verus!
