//! A new chunk: what the device tree, the chunk tree and the device item say of
//! it once it is committed.

use vstd::prelude::*;
use vstd::set::fold::{is_fun_commutative, lemma_fold_empty, lemma_fold_insert};

use crate::bytes::{enc16, enc64, group_enc_len, le16, le16_of_enc, le64, le64_of_enc};
use crate::error::Fault;
use crate::fs::btrfs::chunk::{
    chunk_bytes, dev_extent_bytes, stripe_block, stripe_bytes, with_chunk, ChunkV,
};
use crate::fs::btrfs::files::disk_item;
use crate::fs::btrfs::roots::{parse_root, root_of};
use crate::fs::btrfs::search::MAX_DEPTH;
use crate::fs::btrfs::tree::{Key, CHUNK_TREE_OBJECTID, DEV_TREE_OBJECTID, EXTENT_TREE_OBJECTID};
use crate::fs::btrfs::volume::FsV;
use crate::fs::btrfs::write::change::{beside_other_way, extent_root, top_root};
use crate::fs::btrfs::write::chunk_alloc::{
    chunk_allocated, chunk_of, chunk_tree_ops, chunk_written, dev_tree_ops, empty_group,
    group_of_chunk, group_ops, new_chunk_of, reserved_ranges, NewChunk,
};
use crate::fs::btrfs::write::commit::{commit_script, committed, template_of};
use crate::fs::btrfs::write::contents::in_tree;
use crate::fs::btrfs::write::converge::{extent_start, finalized, root_ops, ChangesV, Lookups};
use crate::fs::btrfs::write::counters::keys_finite;
use crate::fs::btrfs::write::exclude::sb_exclusions;
use crate::fs::btrfs::write::grove::{
    beside, beside_change, blocks_left, finish_keeps_tree, finish_low, grove, state_of,
};
use crate::fs::btrfs::write::handout::{covering_one, offered};
use crate::fs::btrfs::write::load::{allocator_of, extent_tree_of};
use crate::fs::btrfs::write::moving::under;
use crate::fs::btrfs::write::ranges::FreeRange;
use crate::fs::btrfs::write::readback::{clear_cut, committed_is_found, kept_by};
use crate::fs::btrfs::write::remount::repointed_reads_back;
use crate::fs::btrfs::write::space::{exclude, BgV};
use crate::fs::btrfs::write::tiling::exclusion_offers_less;
use crate::fs::btrfs::write::tree_map::{
    all_allowed, allowed, confined, contents, map_after, map_after_all, orderly,
    search_reads_contents, stays_low, steps_on_map,
};
use crate::fs::btrfs::write::txn::{next_generation, TxnV};
use crate::fs::btrfs::write::workspace::{fresh_state, steps, OpV, StateV};

verus! {

/// The root of the device tree.
pub open spec fn dev_root(fs: FsV) -> (u64, u8) {
    let r = root_of(fs, DEV_TREE_OBJECTID)->Ok_0;
    (r.bytenr, r.level)
}

/// The root of the chunk tree.
pub open spec fn chunk_root(fs: FsV) -> (u64, u8) {
    (fs.sb.chunk_root, fs.sb.chunk_root_level)
}

/// The space that the blocks of a chunk allocation are taken from.
pub open spec fn space_for_chunk(fs: FsV, reserved: Seq<(u64, u64)>) -> Seq<BgV> {
    exclude(
        allocator_of(extent_tree_of(fs)->Ok_0, fs.chunks)->Ok_0,
        reserved_ranges(reserved),
    )
}

/// Four trees in order, none with a block of another, and all below address
/// `end`, as is all that is free.
pub open spec fn four_trees(
    fs: FsV,
    s: StateV,
    a: (u64, u8),
    b: (u64, u8),
    c: (u64, u8),
    d: (u64, u8),
    end: int,
) -> bool {
    &&& orderly(fs, s, a)
    &&& orderly(fs, s, b)
    &&& orderly(fs, s, c)
    &&& orderly(fs, s, d)
    &&& beside(fs, s, a, b)
    &&& beside(fs, s, a, c)
    &&& beside(fs, s, a, d)
    &&& beside(fs, s, b, c)
    &&& beside(fs, s, b, d)
    &&& beside(fs, s, c, d)
    &&& tree_below(fs, s, a, end)
    &&& tree_below(fs, s, b, end)
    &&& tree_below(fs, s, c, end)
    &&& tree_below(fs, s, d, end)
    &&& free_below(s.space, end)
}

/// Every block of a tree lies below address `end`.
pub open spec fn tree_below(fs: FsV, s: StateV, x: (u64, u8), end: int) -> bool {
    forall|a: u64| #[trigger] in_tree(fs, s.pending, x.0, x.1, a) ==> a < end
}

/// All that is free lies below address `end`.
pub open spec fn free_below(space: Seq<BgV>, end: int) -> bool {
    forall|x: int| #[trigger] offered(space, x) > 0 ==> x < end
}

/// A change of the first of four trees.
proof fn first_changes(
    fs: FsV,
    s: StateV,
    t: StateV,
    a: (u64, u8),
    at: (u64, u8),
    b: (u64, u8),
    c: (u64, u8),
    d: (u64, u8),
    end: int,
)
    requires
        four_trees(fs, s, a, b, c, d, end),
        confined(fs, s, t, a, at),
        orderly(fs, t, at),
    ensures
        four_trees(fs, t, b, c, d, at, end),
        contents(fs, t, b) == contents(fs, s, b),
        contents(fs, t, c) == contents(fs, s, c),
        contents(fs, t, d) == contents(fs, s, d),
{
    beside_change(fs, s, t, a, at, b, c);
    beside_change(fs, s, t, a, at, b, d);
    beside_change(fs, s, t, a, at, c, d);
    beside_other_way(fs, t, at, b);
    beside_other_way(fs, t, at, c);
    beside_other_way(fs, t, at, d);
    blocks_left(fs, s, t, a, at, b);
    blocks_left(fs, s, t, a, at, c);
    blocks_left(fs, s, t, a, at, d);
    assert forall|x: int| #[trigger] offered(t.space, x) > 0 implies x < end by {
        assert(offered(t.space, x) <= offered(s.space, x));
    }
    assert forall|x: u64| #[trigger] in_tree(fs, t.pending, at.0, at.1, x) implies x < end by {
        if !in_tree(fs, s.pending, a.0, a.1, x) {
            assert(offered(s.space, x as int) > 0);
        }
    }
    assert(tree_below(fs, t, b, end));
    assert(tree_below(fs, t, c, end));
    assert(tree_below(fs, t, d, end));
}

/// A group of addresses behind all others is added to what is free.
proof fn group_added(
    fs: FsV,
    s: StateV,
    u: StateV,
    g: BgV,
    ranges: Seq<core::ops::Range<u64>>,
    x: (u64, u8),
    end: int,
)
    requires
        orderly(fs, s, x),
        tree_below(fs, s, x, end),
        free_below(s.space, end),
        g.free == seq![FreeRange { start: end as u64, length: g.group.length }],
        0 <= end <= u64::MAX,
        u == (StateV { space: exclude(s.space.push(g), ranges), ..s }),
    ensures
        orderly(fs, u, x),
        contents(fs, u, x) == contents(fs, s, x),
{
    let r = FreeRange { start: end as u64, length: g.group.length };
    assert forall|a: int| #[trigger] offered(u.space, a) <= 1 && (a < end ==> offered(u.space, a)
        <= offered(s.space, a)) by {
        exclusion_offers_less(s.space.push(g), ranges, a);
        assert(s.space.push(g).drop_last() =~= s.space);
        covering_one(r, a);
        assert(offered(s.space, a) <= 1);
    }
    assert forall|a: u64| #[trigger] in_tree(fs, u.pending, x.0, x.1, a) implies offered(
        u.space,
        a as int,
    ) == 0 by {
        assert(in_tree(fs, s.pending, x.0, x.1, a));
        assert(offered(u.space, a as int) <= offered(s.space, a as int));
    }
}

/// A volume that a chunk can be allocated on: its root tree, its extent tree, its
/// device tree and its chunk tree are in order, stay within reach, and lie below
/// the new chunk.
pub open spec fn fit_for_chunk(fs: FsV, n: NewChunk, reserved: Seq<(u64, u64)>, fst: bool) -> bool {
    let g = next_generation(fs);
    let s0 = fresh_state(space_for_chunk(fs, reserved));
    let bg = group_of_chunk(n, extent_tree_of(fs)->Ok_0.block_groups);
    &&& fs.sb.node_size > 0
    &&& four_trees(
        fs,
        s0,
        dev_root(fs),
        chunk_root(fs),
        extent_root(fs),
        top_root(fs),
        n.logical as int,
    )
    &&& stays_low(fs, g, DEV_TREE_OBJECTID, s0, dev_root(fs), dev_tree_ops(fs, n))
    &&& steps(
        fs,
        g,
        DEV_TREE_OBJECTID,
        s0,
        dev_root(fs),
        dev_tree_ops(fs, n),
    ) matches Ok((s1, d1)) ==> {
        &&& stays_low(fs, g, CHUNK_TREE_OBJECTID, s1, chunk_root(fs), chunk_tree_ops(fs, n))
        &&& steps(
            fs,
            g,
            CHUNK_TREE_OBJECTID,
            s1,
            chunk_root(fs),
            chunk_tree_ops(fs, n),
        ) matches Ok((s2, c2)) ==> {
            &&& stays_low(fs, g, EXTENT_TREE_OBJECTID, s2, extent_root(fs), group_ops(bg))
            &&& steps(
                fs,
                g,
                EXTENT_TREE_OBJECTID,
                s2,
                extent_root(fs),
                group_ops(bg),
            ) matches Ok((s3, x3)) ==> finish_low(
                fs,
                chunk_changes(fs, d1, c2, x3),
                with_group(fs, n, s3, empty_group(bg)),
                fst,
            )
        }
    }
}

/// What a chunk allocation changes.
pub open spec fn chunk_changes(
    fs: FsV,
    dev: (u64, u8),
    chunks: (u64, u8),
    extents: (u64, u8),
) -> ChangesV {
    ChangesV {
        generation: next_generation(fs),
        fs_tree: fs.fs_tree,
        csum_root: None,
        dev_root: Some(dev),
        chunk_root: Some(chunks),
        extent_root: Some(extents),
        data: Seq::empty(),
        added: Seq::empty(),
        dropped: Seq::empty(),
    }
}

/// The state once the new chunk's group may be allocated from.
pub open spec fn with_group(fs: FsV, n: NewChunk, s: StateV, g: BgV) -> StateV {
    StateV {
        space: exclude(s.space.push(g), sb_exclusions(with_chunk(fs.chunks, chunk_of(fs, n)))),
        ..s
    }
}

/// What a chunk allocation leads to: the device tree at `dev` and the chunk tree
/// at `chunks`, as maps, are the volume's with the operations done; the root tree
/// leads to the one, and the transaction to the other.
pub open spec fn leads_to_chunk(
    fs: FsV,
    n: NewChunk,
    reserved: Seq<(u64, u64)>,
    t: TxnV,
    dev: (u64, u8),
    chunks: (u64, u8),
) -> bool {
    let s0 = fresh_state(space_for_chunk(fs, reserved));
    let e = state_of(t);
    let k = Key { objectid: 4, item_type: 132, offset: 0 };
    let root = contents(fs, e, t.root);
    let m = contents(fs, s0, dev_root(fs));
    let c = contents(fs, s0, chunk_root(fs));
    &&& t.chunk_root == Some(chunks)
    &&& orderly(fs, e, t.root)
    &&& orderly(fs, e, dev)
    &&& orderly(fs, e, chunks)
    &&& root.contains_key(k) && (parse_root(4, root[k]) matches Ok(o) && o.bytenr == dev.0
        && o.level == dev.1)
    &&& all_allowed(m, dev_tree_ops(fs, n))
    &&& contents(fs, e, dev) == map_after_all(m, dev_tree_ops(fs, n))
    &&& all_allowed(c, chunk_tree_ops(fs, n))
    &&& contents(fs, e, chunks) == map_after_all(c, chunk_tree_ops(fs, n))
}

proof fn chunk_is_led_to(fs: FsV, n: NewChunk, reserved: Seq<(u64, u64)>, fst: bool)
    requires
        chunk_written(fs, n, reserved, fst) is Ok,
        fit_for_chunk(fs, n, reserved, fst),
    ensures
        exists|dev: (u64, u8), chunks: (u64, u8)|
            leads_to_chunk(
                fs,
                n,
                reserved,
                chunk_written(fs, n, reserved, fst)->Ok_0,
                dev,
                chunks,
            ),
{
    let g = next_generation(fs);
    let s0 = fresh_state(space_for_chunk(fs, reserved));
    let d0 = dev_root(fs);
    let c0 = chunk_root(fs);
    let x0 = extent_root(fs);
    let r0 = top_root(fs);
    let end = n.logical as int;
    let bg = group_of_chunk(n, extent_tree_of(fs)->Ok_0.block_groups);
    let (s1, d1) = steps(fs, g, DEV_TREE_OBJECTID, s0, d0, dev_tree_ops(fs, n))->Ok_0;
    steps_on_map(fs, g, DEV_TREE_OBJECTID, s0, d0, dev_tree_ops(fs, n));
    first_changes(fs, s0, s1, d0, d1, c0, x0, r0, end);
    let (s2, c2) = steps(fs, g, CHUNK_TREE_OBJECTID, s1, c0, chunk_tree_ops(fs, n))->Ok_0;
    steps_on_map(fs, g, CHUNK_TREE_OBJECTID, s1, c0, chunk_tree_ops(fs, n));
    first_changes(fs, s1, s2, c0, c2, x0, r0, d1, end);
    let (s3, x3) = steps(fs, g, EXTENT_TREE_OBJECTID, s2, x0, group_ops(bg))->Ok_0;
    steps_on_map(fs, g, EXTENT_TREE_OBJECTID, s2, x0, group_ops(bg));
    first_changes(fs, s2, s3, x0, x3, r0, d1, c2, end);
    let b = empty_group(bg);
    let u = with_group(fs, n, s3, b);
    let ranges = sb_exclusions(with_chunk(fs.chunks, chunk_of(fs, n)));
    group_added(fs, s3, u, b, ranges, r0, end);
    group_added(fs, s3, u, b, ranges, d1, end);
    group_added(fs, s3, u, b, ranges, c2, end);
    group_added(fs, s3, u, b, ranges, x3, end);
    beside_other_way(fs, s3, d1, x3);
    beside_other_way(fs, s3, c2, x3);
    assert(grove(fs, u, r0, x3, d1));
    assert(grove(fs, u, r0, x3, c2));
    let c = chunk_changes(fs, d1, c2, x3);
    let t = chunk_written(fs, n, reserved, fst)->Ok_0;
    assert(finalized(fs, c, u, fst) == Ok::<TxnV, Fault>(t));
    assert(extent_start(fs, c) == Ok::<(u64, u8), Fault>(x3));
    finish_keeps_tree(fs, c, u, fst, x3, d1);
    finish_keeps_tree(fs, c, u, fst, x3, c2);
    let m = contents(fs, u, r0);
    let ops = root_ops(fs, c);
    let k = Key { objectid: 4, item_type: 132, offset: 0 };
    assert(ops.len() == 1);
    assert(ops.drop_last() =~= Seq::<OpV>::empty());
    assert(map_after_all(m, ops.drop_last()) == m);
    assert(allowed(m, ops.last()));
    assert(map_after_all(m, ops) == map_after(m, ops[0]));
    repointed_reads_back(4, m[k], g, d1.0, d1.1);
    assert(map_after_all(m, ops).contains_key(k));
    assert(leads_to_chunk(fs, n, reserved, t, d1, c2));
}

/// A commit of `t` keeps the blocks of a tree, so that it is read back.
pub open spec fn keeps_tree(fs: FsV, len: Option<u64>, t: TxnV, x: (u64, u8)) -> bool {
    x.1 < MAX_DEPTH && forall|a: u64| #[trigger]
        in_tree(fs, t.blocks, x.0, x.1, a) ==> kept_by(fs, len, t, a)
}

/// A commit of a chunk allocation goes through, and keeps the trees that it leads
/// to.
pub open spec fn commits_chunk(
    fs: FsV,
    len: Option<u64>,
    n: NewChunk,
    reserved: Seq<(u64, u64)>,
    t: TxnV,
) -> bool {
    &&& t.blocks.dom().finite()
    &&& committed(fs, len, t) is Ok
    &&& clear_cut(commit_script(fs, len, t, template_of(fs)->Ok_0))
    &&& keeps_tree(fs, len, t, t.root)
    &&& forall|dev: (u64, u8), chunks: (u64, u8)| #[trigger]
        leads_to_chunk(fs, n, reserved, t, dev, chunks) ==> keeps_tree(fs, len, t, dev)
            && keeps_tree(fs, len, t, chunks)
}

/// The key of the device item.
pub open spec fn device_item(devid: u64) -> Key {
    Key { objectid: 1, item_type: 216, offset: devid }
}

/// The key of a device extent.
pub open spec fn device_extent(devid: u64, at: u64) -> Key {
    Key { objectid: devid, item_type: 204, offset: at }
}

/// The key of a chunk item.
pub open spec fn chunk_item(logical: u64) -> Key {
    Key { objectid: 256, item_type: 228, offset: logical }
}

/// A device item counts `more` bytes more than before, and is otherwise the same.
pub open spec fn counts_more(was: Seq<u8>, now: Seq<u8>, more: u64) -> bool {
    &&& now.len() == was.len()
    &&& le64(now, 16) == le64(was, 16) + more
    &&& forall|i: int|
        (0 <= i < 16 || 24 <= i < was.len()) ==> #[trigger] now[i] == was[i]
}

/// A device extent belongs to the chunk at `logical`, and is as long as it.
pub open spec fn extent_says(e: Seq<u8>, logical: u64, length: u64) -> bool {
    &&& e.len() == 48
    &&& le64(e, 0) == 3
    &&& le64(e, 8) == 256
    &&& le64(e, 16) == logical
    &&& le64(e, 24) == length
}

/// A chunk item for data, with one copy, of `length` bytes at `at` of device
/// `devid`.
pub open spec fn chunk_says(c: Seq<u8>, length: u64, devid: u64, at: u64) -> bool {
    &&& c.len() == 80
    &&& le64(c, 0) == length
    &&& le64(c, 8) == 2
    &&& le64(c, 16) == 65536
    &&& le64(c, 24) == 1
    &&& le16(c, 44) == 1
    &&& le64(c, 48) == devid
    &&& le64(c, 56) == at
}

proof fn extent_is_stored(n: NewChunk)
    requires
        n.chunk_tree_uuid.len() == 16,
    ensures
        extent_says(dev_extent_bytes(n.logical, n.len, n.chunk_tree_uuid), n.logical, n.len),
{
    broadcast use group_enc_len;

    let e = dev_extent_bytes(n.logical, n.len, n.chunk_tree_uuid);
    assert(e.subrange(0, 8) =~= enc64(3));
    assert(e.subrange(8, 16) =~= enc64(256));
    assert(e.subrange(16, 24) =~= enc64(n.logical));
    assert(e.subrange(24, 32) =~= enc64(n.len));
    le64_of_enc(e, 0, 3);
    le64_of_enc(e, 8, 256);
    le64_of_enc(e, 16, n.logical);
    le64_of_enc(e, 24, n.len);
}

proof fn chunk_is_stored(fs: FsV, n: NewChunk)
    ensures
        chunk_says(chunk_bytes(chunk_of(fs, n)), n.len, fs.sb.dev_id, n.physical),
{
    broadcast use group_enc_len;

    let c = chunk_of(fs, n);
    let b = chunk_bytes(c);
    assert(c.stripes.drop_last() =~= Seq::empty());
    assert(stripe_block(c.stripes.drop_last()) =~= Seq::<u8>::empty());
    assert(stripe_block(c.stripes) =~= stripe_bytes(c.stripes[0]));
    assert(b.subrange(0, 8) =~= enc64(n.len));
    assert(b.subrange(8, 16) =~= enc64(2));
    assert(b.subrange(16, 24) =~= enc64(65536));
    assert(b.subrange(24, 32) =~= enc64(1));
    assert(b.subrange(44, 46) =~= enc16(1));
    assert(b.subrange(48, 56) =~= enc64(fs.sb.dev_id));
    assert(b.subrange(56, 64) =~= enc64(n.physical));
    le64_of_enc(b, 0, n.len);
    le64_of_enc(b, 8, 2);
    le64_of_enc(b, 16, 65536);
    le64_of_enc(b, 24, 1);
    le16_of_enc(b, 44, 1);
    le64_of_enc(b, 48, fs.sb.dev_id);
    le64_of_enc(b, 56, n.physical);
}

/// What the operations on the device tree and the chunk tree make of them.
proof fn chunk_on_maps(fs: FsV, n: NewChunk, m: Map<Key, Seq<u8>>, c: Map<Key, Seq<u8>>, k: Key)
    requires
        all_allowed(m, dev_tree_ops(fs, n)),
        all_allowed(c, chunk_tree_ops(fs, n)),
        n.chunk_tree_uuid.len() == 16,
    ensures
        ({
            let devid = fs.sb.dev_id;
            let mm = map_after_all(m, dev_tree_ops(fs, n));
            let cc = map_after_all(c, chunk_tree_ops(fs, n));
            let item = device_item(devid);
            let x = device_extent(devid, n.physical);
            &&& !m.contains_key(x) && mm == m.insert(x, mm[x]) && extent_says(
                mm[x],
                n.logical,
                n.len,
            )
            &&& c.contains_key(item) && cc.contains_key(item) && counts_more(
                c[item],
                cc[item],
                n.len,
            )
            &&& cc.contains_key(chunk_item(n.logical)) && chunk_says(
                cc[chunk_item(n.logical)],
                n.len,
                devid,
                n.physical,
            )
            &&& k != item && k != chunk_item(n.logical) ==> under(cc, k) == under(c, k)
            &&& k != x ==> under(mm, k) == under(m, k)
        }),
{
    broadcast use group_enc_len;

    let devid = fs.sb.dev_id;
    let item = device_item(devid);
    extent_is_stored(n);
    chunk_is_stored(fs, n);
    let d = dev_tree_ops(fs, n);
    assert(d.drop_last() =~= Seq::<OpV>::empty());
    assert(map_after_all(m, d.drop_last()) == m);
    assert(allowed(m, d.last()));
    assert(map_after_all(m, d) == map_after(m, d[0]));
    let ops = chunk_tree_ops(fs, n);
    let one = ops.drop_last();
    assert(one =~= seq![ops[0]]);
    assert(one.drop_last() =~= Seq::<OpV>::empty());
    assert(map_after_all(c, one.drop_last()) == c);
    assert(all_allowed(c, one));
    assert(allowed(c, one.last()));
    assert(map_after_all(c, one) == map_after(c, ops[0]));
    let was = c[item];
    let now = map_after(c, ops[0])[item];
    let sum = (le64(was, 16) + n.len) as u64;
    assert(now.subrange(16, 24) =~= enc64(sum));
    le64_of_enc(now, 16, sum);
}

/// What is found on the device once a chunk allocation is committed, the device
/// tree being at `dev`; `k` is any other key.
pub open spec fn chunk_on_device(fs: FsV, gs: FsV, dev: u64, chunk: ChunkV, k: Key) -> bool {
    let devid = fs.sb.dev_id;
    let at = chunk.stripes[0].offset;
    &&& disk_item(
        gs,
        gs.sb.root,
        Key { objectid: 4, item_type: 132, offset: 0 },
    ) matches Ok(Some(r)) && parse_root(4, r) matches Ok(o) && o.bytenr == dev
    &&& disk_item(fs, fs.sb.chunk_root, device_item(devid)) matches Ok(Some(was)) && disk_item(
        gs,
        gs.sb.chunk_root,
        device_item(devid),
    ) matches Ok(Some(now)) && counts_more(was, now, chunk.length)
    &&& disk_item(gs, dev, device_extent(devid, at)) matches Ok(Some(e)) && extent_says(
        e,
        chunk.logical,
        chunk.length,
    )
    &&& disk_item(gs, gs.sb.chunk_root, chunk_item(chunk.logical)) matches Ok(Some(c))
        && chunk_says(c, chunk.length, devid, at)
    &&& k != device_item(devid) && k != chunk_item(chunk.logical) ==> disk_item(
        gs,
        gs.sb.chunk_root,
        k,
    ) == disk_item(fs, fs.sb.chunk_root, k)
    &&& k != device_extent(devid, at) ==> disk_item(gs, dev, k) == disk_item(
        fs,
        dev_root(fs).0,
        k,
    )
}

/// Once a chunk allocation is committed: the device item counts as many bytes more
/// as the new chunk has, and is otherwise what it was; the device tree has an
/// extent for the chunk, and the chunk tree an item, both as long as the chunk;
/// and every other item of the two trees is what it was.
pub proof fn chunk_is_found_on_device(
    fs: FsV,
    len: Option<u64>,
    reserved: Seq<(u64, u64)>,
    seen: Lookups,
    k: Key,
)
    requires
        chunk_allocated(fs, reserved, seen) is Ok,
        fit_for_chunk(fs, new_chunk_of(fs)->Ok_0, reserved, seen.fst),
        dev_root(fs).1 < MAX_DEPTH,
        chunk_root(fs).1 < MAX_DEPTH,
        commits_chunk(
            fs,
            len,
            new_chunk_of(fs)->Ok_0,
            reserved,
            chunk_allocated(fs, reserved, seen)->Ok_0.0,
        ),
        new_chunk_of(fs)->Ok_0.chunk_tree_uuid.len() == 16,
    ensures
        ({
            let (t, chunk) = chunk_allocated(fs, reserved, seen)->Ok_0;
            let gs = committed(fs, len, t)->Ok_0.0;
            exists|dev: u64| chunk_on_device(fs, gs, dev, chunk, k)
        }),
{
    let (t, chunk) = chunk_allocated(fs, reserved, seen)->Ok_0;
    let n = new_chunk_of(fs)->Ok_0;
    let gs = committed(fs, len, t)->Ok_0.0;
    let s0 = fresh_state(space_for_chunk(fs, reserved));
    chunk_is_led_to(fs, n, reserved, seen.fst);
    let (dev, chunks) = choose|dev: (u64, u8), chunks: (u64, u8)|
        leads_to_chunk(fs, n, reserved, t, dev, chunks);
    let m = contents(fs, s0, dev_root(fs));
    let c = contents(fs, s0, chunk_root(fs));
    chunk_on_maps(fs, n, m, c, k);
    let devid = fs.sb.dev_id;
    read_both(fs, len, t, s0, chunk_root(fs), chunks, device_item(devid));
    read_both(fs, len, t, s0, chunk_root(fs), chunks, chunk_item(n.logical));
    read_both(fs, len, t, s0, chunk_root(fs), chunks, k);
    read_both(fs, len, t, s0, dev_root(fs), dev, device_extent(devid, n.physical));
    read_both(fs, len, t, s0, dev_root(fs), dev, k);
    let r = Key { objectid: 4, item_type: 132, offset: 0 };
    search_reads_contents(fs, state_of(t), t.root, r);
    committed_is_found(fs, len, t, t.root, r);
    assert(chunk_on_device(fs, gs, dev.0, chunk, k));
}

/// What is found before and after a commit is what the trees hold as maps.
proof fn read_both(
    fs: FsV,
    len: Option<u64>,
    t: TxnV,
    s0: StateV,
    x: (u64, u8),
    y: (u64, u8),
    k: Key,
)
    requires
        s0 == fresh_state(s0.space),
        orderly(fs, s0, x),
        x.1 < MAX_DEPTH,
        orderly(fs, state_of(t), y),
        t.blocks.dom().finite(),
        committed(fs, len, t) is Ok,
        clear_cut(commit_script(fs, len, t, template_of(fs)->Ok_0)),
        keeps_tree(fs, len, t, y),
    ensures
        disk_item(fs, x.0, k) == Ok::<Option<Seq<u8>>, Fault>(under(contents(fs, s0, x), k)),
        disk_item(committed(fs, len, t)->Ok_0.0, y.0, k) == Ok::<Option<Seq<u8>>, Fault>(
            under(contents(fs, state_of(t), y), k),
        ),
{
    search_reads_contents(fs, s0, x, k);
    search_reads_contents(fs, state_of(t), y, k);
    committed_is_found(fs, len, t, y, k);
}

/// The bytes of device `devid` that a device tree, as a map, has given away under
/// `keys`.
pub open spec fn given_under(m: Map<Key, Seq<u8>>, devid: u64, keys: Set<Key>) -> int {
    keys.fold(
        0int,
        |sum: int, k: Key|
            sum + if k.objectid == devid && k.item_type == 204 {
                le64(m[k], 24) as int
            } else {
                0
            },
    )
}

/// The sum of the extents of device `devid`.
pub open spec fn extents_total(m: Map<Key, Seq<u8>>, devid: u64) -> int {
    given_under(m, devid, m.dom())
}

spec fn given(m: Map<Key, Seq<u8>>, devid: u64, k: Key) -> int {
    if k.objectid == devid && k.item_type == 204 {
        le64(m[k], 24) as int
    } else {
        0
    }
}

proof fn given_with(m: Map<Key, Seq<u8>>, devid: u64, keys: Set<Key>, k: Key)
    requires
        !keys.contains(k),
    ensures
        given_under(m, devid, keys.insert(k)) == given_under(m, devid, keys) + given(m, devid, k),
{
    let f = |sum: int, k: Key|
        sum + if k.objectid == devid && k.item_type == 204 {
            le64(m[k], 24) as int
        } else {
            0
        };
    keys_finite(keys);
    assert(is_fun_commutative(f));
    lemma_fold_insert(keys, 0int, f, k);
}

/// Only what is under the keys counts.
proof fn given_alike(m: Map<Key, Seq<u8>>, n: Map<Key, Seq<u8>>, devid: u64, keys: Set<Key>)
    requires
        forall|k: Key| #[trigger] keys.contains(k) ==> m[k] == n[k],
    ensures
        given_under(m, devid, keys) == given_under(n, devid, keys),
    decreases keys.len(),
{
    keys_finite(keys);
    if keys =~= Set::empty() {
        lemma_fold_empty::<Key, int>(
            0int,
            |sum: int, k: Key|
                sum + if k.objectid == devid && k.item_type == 204 {
                    le64(m[k], 24) as int
                } else {
                    0
                },
        );
        lemma_fold_empty::<Key, int>(
            0int,
            |sum: int, k: Key|
                sum + if k.objectid == devid && k.item_type == 204 {
                    le64(n[k], 24) as int
                } else {
                    0
                },
        );
    } else {
        let k = keys.choose();
        let rest = keys.remove(k);
        assert(keys.contains(k));
        assert(rest.insert(k) =~= keys);
        given_alike(m, n, devid, rest);
        given_with(m, devid, rest, k);
        given_with(n, devid, rest, k);
    }
}

/// The bytes that a device item counts stay the sum of the device's extents: if
/// that is what they were, it is what they are in the trees that a chunk
/// allocation leads to.
pub proof fn bytes_used_stays_the_sum(
    fs: FsV,
    reserved: Seq<(u64, u64)>,
    seen: Lookups,
    dev: (u64, u8),
    chunks: (u64, u8),
)
    requires
        chunk_allocated(fs, reserved, seen) is Ok,
        leads_to_chunk(
            fs,
            new_chunk_of(fs)->Ok_0,
            reserved,
            chunk_allocated(fs, reserved, seen)->Ok_0.0,
            dev,
            chunks,
        ),
        new_chunk_of(fs)->Ok_0.chunk_tree_uuid.len() == 16,
    ensures
        ({
            let t = chunk_allocated(fs, reserved, seen)->Ok_0.0;
            let s0 = fresh_state(space_for_chunk(fs, reserved));
            let devid = fs.sb.dev_id;
            let m = contents(fs, s0, dev_root(fs));
            let c = contents(fs, s0, chunk_root(fs));
            let mm = contents(fs, state_of(t), dev);
            let cc = contents(fs, state_of(t), chunks);
            le64(c[device_item(devid)], 16) == extents_total(m, devid) ==> le64(
                cc[device_item(devid)],
                16,
            ) == extents_total(mm, devid)
        }),
{
    let t = chunk_allocated(fs, reserved, seen)->Ok_0.0;
    let n = new_chunk_of(fs)->Ok_0;
    let s0 = fresh_state(space_for_chunk(fs, reserved));
    let devid = fs.sb.dev_id;
    let m = contents(fs, s0, dev_root(fs));
    let c = contents(fs, s0, chunk_root(fs));
    let mm = contents(fs, state_of(t), dev);
    let x = device_extent(devid, n.physical);
    chunk_on_maps(fs, n, m, c, x);
    assert(mm.dom() =~= m.dom().insert(x));
    given_with(mm, devid, m.dom(), x);
    given_alike(m, mm, devid, m.dom());
}

} // verus!
