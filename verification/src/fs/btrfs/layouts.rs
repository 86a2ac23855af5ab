//! The on-disk format of superblocks, nodes, chunks and the records of extents.
//!
//! What is stated here is where the format keeps each field; what is shown is
//! that structures that were stored so are read as what was stored.

use vstd::prelude::*;

use crate::bytes::{enc32, enc64, group_enc_len, group_has_reads, has16, has32, has64, le32, le64};
use crate::error::Fault;
use crate::fs::btrfs::chunk::{
    chunk_covers, chunk_holding_unique, chunk_item_len, chunk_matches, locate, stripe_matches,
    with_chunk, ChunkV, Stripe,
};
use crate::fs::btrfs::crc32c::crc_of;
use crate::fs::btrfs::mount::{chunk_in, chunk_in_is, system_chunks};
use crate::fs::btrfs::sha256::sha256_of;
use crate::fs::btrfs::superblock::{parse_super, SuperV};
use crate::fs::btrfs::tree::{
    csum_field, item_in_bounds, node_of, parse_node, CsumType, Item, Key, KeyPtr, NodeV,
};
use crate::fs::btrfs::volume::{disk_block, FsV};
use crate::fs::btrfs::write::extent_tree::{
    data_extent_bytes, extent_item_fault, extent_item_matches, metadata_item_fault,
    metadata_item_matches, parse_backrefs, parse_block_group, tree_block_bytes, BackrefV,
    BlockGroupItem, ExtentItem, MetadataItem,
};

verus! {

/// A key: the object, the type and the offset.
pub open spec fn has_key(d: Seq<u8>, o: int, k: Key) -> bool {
    has64(d, o, k.objectid as int) && d[o + 8] == k.item_type && has64(d, o + 9, k.offset as int)
}

/// The 32 bytes of a checksum over `data`: of the shorter kind, four bytes and
/// zeros behind them.
pub open spec fn has_checksum(d: Seq<u8>, t: CsumType, data: Seq<u8>) -> bool {
    match t {
        CsumType::Crc32c => has32(d, 0, crc_of(data) as int) && forall|i: int|
            4 <= i < 32 ==> #[trigger] d[i] == 0,
        CsumType::Sha256 => d.subrange(0, 32) == sha256_of(data),
    }
}

proof fn checksum_is_field(d: Seq<u8>, t: CsumType, data: Seq<u8>)
    requires
        d.len() >= 32,
        has_checksum(d, t, data),
    ensures
        d.subrange(0, 32) == csum_field(t, data),
{
    broadcast use group_enc_len;

    reveal(csum_field);
    match t {
        CsumType::Crc32c => {
            assert(d.subrange(0, 4) == enc32(crc_of(data)));
            assert forall|i: int| 0 <= i < 32 implies d.subrange(0, 32)[i] == csum_field(
                t,
                data,
            )[i] by {
                if i < 4 {
                    assert(d.subrange(0, 4)[i] == d[i]);
                }
            }
            assert(d.subrange(0, 32) =~= csum_field(t, data));
        },
        CsumType::Sha256 => {},
    }
}

/// A node of a tree: its checksum, the filesystem, its own address, flags, the
/// chunk tree's mark, the transaction and the tree it was written for, how many
/// entries it has, and its level. A leaf has the keys of its items from the front
/// on, each with where its payload is, counted from behind the header; an
/// interior node has keys and the blocks below.
pub open spec fn stores_node(d: Seq<u8>, n: NodeV, t: CsumType, at: Seq<int>) -> bool {
    let nr = if n.level == 0 {
        n.items.len()
    } else {
        n.ptrs.len()
    };
    &&& d.len() >= 101
    &&& has_checksum(d, t, d.subrange(32, d.len() as int))
    &&& d.subrange(32, 48) == n.metadata_uuid
    &&& has64(d, 48, n.bytenr as int)
    &&& has64(d, 56, n.flags as int)
    &&& d.subrange(64, 80) == n.chunk_tree_uuid
    &&& has64(d, 80, n.generation as int)
    &&& has64(d, 88, n.owner as int)
    &&& has32(d, 96, nr as int)
    &&& d[100] == n.level
    &&& if n.level == 0 {
        &&& n.ptrs.len() == 0
        &&& at.len() == n.items.len()
        &&& 101 + 25 * n.items.len() <= d.len()
        &&& forall|i: int|
            0 <= i < n.items.len() ==> stores_item(d, i, #[trigger] n.items[i], at[i])
    } else {
        &&& n.items.len() == 0
        &&& 101 + 33 * n.ptrs.len() <= d.len()
        &&& forall|i: int|
            0 <= i < n.ptrs.len() ==> stores_pointer(d, i, #[trigger] n.ptrs[i])
    }
}

/// Item `i` of a leaf, whose payload is `at` bytes behind the header.
pub open spec fn stores_item(d: Seq<u8>, i: int, it: Item, at: int) -> bool {
    let o = 101 + 25 * i;
    &&& has_key(d, o, it.key)
    &&& has32(d, o + 17, at)
    &&& has32(d, o + 21, it.data.len() as int)
    &&& 101 + at + it.data.len() <= d.len()
    &&& d.subrange(101 + at, 101 + at + it.data.len()) == it.data
}

/// Entry `i` of an interior node.
pub open spec fn stores_pointer(d: Seq<u8>, i: int, p: KeyPtr) -> bool {
    let o = 101 + 33 * i;
    &&& has_key(d, o, p.key)
    &&& has64(d, o + 17, p.blockptr as int)
    &&& has64(d, o + 25, p.generation as int)
}

/// A node is read as what was stored.
pub proof fn node_reads_back(d: Seq<u8>, n: NodeV, t: CsumType, at: Seq<int>)
    requires
        stores_node(d, n, t, at),
    ensures
        parse_node(d, n.bytenr, t, n.metadata_uuid) == Ok::<NodeV, Fault>(n),
{
    broadcast use group_has_reads;

    reveal(parse_node);
    checksum_is_field(d, t, d.subrange(32, d.len() as int));
    let m = node_of(d);
    if n.level == 0 {
        assert forall|i: int| 0 <= i < n.items.len() implies m.items[i] == n.items[i] by {
            assert(stores_item(d, i, n.items[i], at[i]));
        }
        assert forall|i: int| 0 <= i < le32(d, 96) implies item_in_bounds(d, i) by {
            assert(stores_item(d, i, n.items[i], at[i]));
        }
    } else {
        assert forall|i: int| 0 <= i < n.ptrs.len() implies m.ptrs[i] == n.ptrs[i] by {
            assert(stores_pointer(d, i, n.ptrs[i]));
        }
    }
    assert(m.items =~= n.items);
    assert(m.ptrs =~= n.ptrs);
}

/// A superblock copy of 4096 bytes at byte `offset` of the device. The metadata
/// has a mark of its own where a flag says so.
pub open spec fn stores_super(d: Seq<u8>, s: SuperV, offset: u64) -> bool {
    &&& d.len() == 4096
    &&& has_checksum(d, s.csum_type, d.subrange(32, 4096))
    &&& if s.incompat_flags & 0x400 != 0 {
        d.subrange(571, 587) == s.metadata_uuid
    } else {
        d.subrange(32, 48) == s.metadata_uuid
    }
    &&& has64(d, 48, offset as int)
    &&& d[64] == 0x5F && d[65] == 0x42 && d[66] == 0x48 && d[67] == 0x52
    &&& d[68] == 0x66 && d[69] == 0x53 && d[70] == 0x5F && d[71] == 0x4D
    &&& has64(d, 72, s.generation as int)
    &&& has64(d, 80, s.root as int)
    &&& has64(d, 88, s.chunk_root as int)
    &&& has64(d, 96, s.log_root as int)
    &&& has64(d, 112, s.total_bytes as int)
    &&& has64(d, 120, s.bytes_used as int)
    &&& has64(d, 136, s.num_devices as int)
    &&& has32(d, 144, s.sector_size as int)
    &&& has32(d, 148, s.node_size as int)
    &&& has32(d, 160, s.sys_chunks.len() as int)
    &&& has64(d, 164, s.chunk_root_generation as int)
    &&& has64(d, 180, s.compat_ro_flags as int)
    &&& has64(d, 188, s.incompat_flags as int)
    &&& has16(
        d,
        196,
        match s.csum_type {
            CsumType::Crc32c => 0,
            CsumType::Sha256 => 2,
        },
    )
    &&& d[198] == s.root_level
    &&& d[199] == s.chunk_root_level
    &&& has64(d, 201, s.dev_id as int)
    &&& s.sys_chunks.len() <= 2048
    &&& d.subrange(811, 811 + s.sys_chunks.len() as int) == s.sys_chunks
}

/// A superblock copy is read as what was stored, where it is looked for.
pub proof fn super_reads_back(d: Seq<u8>, s: SuperV, offset: u64)
    requires
        stores_super(d, s, offset),
        s.sector_size > 0,
        s.node_size > 0,
    ensures
        parse_super(d, offset) == Ok::<SuperV, Fault>(s),
{
    broadcast use group_has_reads;

    reveal(parse_super);
    checksum_is_field(d, s.csum_type, d.subrange(32, 4096));
    assert(le64(d, 64) == 0x4D5F_5366_5248_425F) by {
        reveal(le64);
        reveal(le32);
    }
}

/// A superblock copy that belongs elsewhere is refused.
pub proof fn misplaced_super_is_refused(d: Seq<u8>, s: SuperV, offset: u64, other: u64)
    requires
        stores_super(d, s, offset),
        other != offset,
    ensures
        parse_super(d, other) is Err,
{
    broadcast use group_has_reads;

    reveal(parse_super);
}

/// A chunk item: how long the chunk is, its owner, how long a stripe is, what it is
/// for, alignments, how many copies it has, and where each of them is.
pub open spec fn stores_chunk(d: Seq<u8>, o: int, c: ChunkV) -> bool {
    &&& 0 <= o
    &&& o + 48 + 32 * c.stripes.len() <= d.len()
    &&& has64(d, o, c.length as int)
    &&& has64(d, o + 8, c.owner as int)
    &&& has64(d, o + 16, c.stripe_len as int)
    &&& has64(d, o + 24, c.chunk_type as int)
    &&& has32(d, o + 32, c.io_align as int)
    &&& has32(d, o + 36, c.io_width as int)
    &&& has32(d, o + 40, c.sector_size as int)
    &&& has16(d, o + 44, c.stripes.len() as int)
    &&& has16(d, o + 46, c.sub_stripes as int)
    &&& forall|i: int|
        0 <= i < c.stripes.len() ==> stores_stripe(d, o + 48 + 32 * i, #[trigger] c.stripes[i])
}

/// A copy: the device, where the copy begins on it, and the device's mark.
pub open spec fn stores_stripe(d: Seq<u8>, o: int, s: Stripe) -> bool {
    &&& has64(d, o, s.devid as int)
    &&& has64(d, o + 8, s.offset as int)
    &&& d.subrange(o + 16, o + 32) == s.dev_uuid@
}

/// A chunk item is read as what was stored.
pub proof fn chunk_reads_back(d: Seq<u8>, o: int, c: ChunkV)
    requires
        stores_chunk(d, o, c),
    ensures
        chunk_matches(c.logical, d, o, c),
        chunk_in(c.logical, d, o) == c,
        chunk_item_len(d, o) == 48 + 32 * c.stripes.len(),
{
    broadcast use group_has_reads;

    assert forall|i: int| 0 <= i < c.stripes.len() implies stripe_matches(
        d,
        o + 48 + 32 * i,
        #[trigger] c.stripes[i],
    ) by {
        assert(stores_stripe(d, o + 48 + 32 * i, c.stripes[i]));
    }
    chunk_in_is(c.logical, d, o, c);
}

/// The first chunk of a superblock's array of chunks: its key, of type 228, whose
/// offset is where the chunk begins, and its item.
pub proof fn system_chunk_reads_back(d: Seq<u8>, o: int, c: ChunkV, chunks: Seq<ChunkV>)
    requires
        0 <= o,
        o + 17 <= d.len(),
        d[o + 8] == 228,
        has64(d, o + 9, c.logical as int),
        stores_chunk(d, o + 17, c),
    ensures
        system_chunks(d, o, chunks) == system_chunks(
            d,
            o + 65 + 32 * c.stripes.len(),
            with_chunk(chunks, c),
        ),
{
    broadcast use group_has_reads;

    chunk_reads_back(d, o + 17, c);
}

/// Where the copies of an address are: the chunk that holds it has one copy for
/// each of its stripes, as far from the stripe's beginning as the address is from
/// that of the chunk; and the copies go on to the chunk's end. So it is for a
/// chunk on one device, with one copy or two.
pub proof fn address_has_copies(chunks: Seq<ChunkV>, p: int, x: u64)
    requires
        0 <= p < chunks.len(),
        chunks[p].logical <= x < chunks[p].logical + chunks[p].length,
        forall|q: int|
            0 <= q < chunks.len() && q != p ==> !((#[trigger] chunks[q]).logical <= x
                < chunks[q].logical + chunks[q].length),
        chunks[p].chunk_type & 0x7D8 == 0,
        chunks[p].stripes.len() > 0,
        forall|i: int|
            0 <= i < chunks[p].stripes.len() ==> (#[trigger] chunks[p].stripes[i]).offset
                + chunks[p].length <= u64::MAX,
    ensures
        locate(chunks, x) matches Ok(y) && {
            let c = chunks[p];
            &&& y.0.len() == c.stripes.len()
            &&& forall|i: int|
                0 <= i < c.stripes.len() ==> #[trigger] y.0[i] == c.stripes[i].offset + (x
                    - c.logical)
            &&& x + y.1 == c.logical + c.length
        },
{
    let c = chunks[p];
    assert forall|j: int| 0 <= j < p implies !chunk_covers(#[trigger] chunks[j], x) by {}
    chunk_holding_unique(chunks, x, p);
    assert(!exists|i: int|
        0 <= i < c.stripes.len() && (#[trigger] c.stripes[i]).offset + (x - c.logical) > u64::MAX);
}

/// A chunk that is spread over several devices is refused: not one address of it
/// has a place.
pub proof fn spread_chunk_is_refused(chunks: Seq<ChunkV>, p: int, x: u64)
    requires
        0 <= p < chunks.len(),
        chunks[p].logical <= x < chunks[p].logical + chunks[p].length,
        forall|q: int|
            0 <= q < chunks.len() && q != p ==> !((#[trigger] chunks[q]).logical <= x
                < chunks[q].logical + chunks[q].length),
        chunks[p].chunk_type & 0x7D8 != 0,
    ensures
        locate(chunks, x) is Err,
{
    assert forall|j: int| 0 <= j < p implies !chunk_covers(#[trigger] chunks[j], x) by {}
    chunk_holding_unique(chunks, x, p);
}

/// An address that no chunk holds has no place.
pub proof fn unmapped_is_refused(chunks: Seq<ChunkV>, x: u64)
    requires
        forall|q: int|
            0 <= q < chunks.len() ==> !((#[trigger] chunks[q]).logical <= x < chunks[q].logical
                + chunks[q].length),
    ensures
        locate(chunks, x) is Err,
{
    assert forall|j: int| 0 <= j < chunks.len() implies !chunk_covers(
        #[trigger] chunks[j],
        x,
    ) by {}
    chunk_holding_unique(chunks, x, chunks.len() as int);
}

/// The item of a block group, under the key of type 192 with where it begins and
/// how long it is.
pub proof fn group_reads_back(d: Seq<u8>, g: BlockGroupItem)
    requires
        d.len() >= 24,
        has64(d, 0, g.used as int),
        has64(d, 8, g.chunk_objectid as int),
        has64(d, 16, g.flags as int),
    ensures
        parse_block_group(Key { objectid: g.start, item_type: 192, offset: g.length }, d) == Ok::<
            BlockGroupItem,
            Fault,
        >(g),
{
    broadcast use group_has_reads;

}

/// The record of a data extent with one reference: the count, the transaction, the
/// flag for data, and the reference: its kind, the tree, the inode, where in the
/// file, and how often.
pub proof fn data_extent_is_stored(generation: u64, root: u64, objectid: u64, offset: u64)
    ensures
        ({
            let d = data_extent_bytes(generation, root, objectid, offset);
            &&& d.len() == 53
            &&& has64(d, 0, 1)
            &&& has64(d, 8, generation as int)
            &&& has64(d, 16, 1)
            &&& d[24] == 178
            &&& has64(d, 25, root as int)
            &&& has64(d, 33, objectid as int)
            &&& has64(d, 41, offset as int)
            &&& has32(d, 49, 1)
        }),
{
    broadcast use group_enc_len;

    let d = data_extent_bytes(generation, root, objectid, offset);
    assert(d.subrange(0, 8) =~= enc64(1));
    assert(d.subrange(8, 16) =~= enc64(generation));
    assert(d.subrange(16, 24) =~= enc64(1));
    assert(d.subrange(25, 33) =~= enc64(root));
    assert(d.subrange(33, 41) =~= enc64(objectid));
    assert(d.subrange(41, 49) =~= enc64(offset));
    assert(d.subrange(49, 53) =~= enc32(1));
}

/// The record of a tree block with one reference: the count, the transaction, the
/// flag for tree blocks, and the reference: its kind and the tree.
pub proof fn tree_block_is_stored(generation: u64, owner: u64)
    ensures
        ({
            let d = tree_block_bytes(generation, owner);
            &&& d.len() == 33
            &&& has64(d, 0, 1)
            &&& has64(d, 8, generation as int)
            &&& has64(d, 16, 2)
            &&& d[24] == 176
            &&& has64(d, 25, owner as int)
        }),
{
    broadcast use group_enc_len;

    let d = tree_block_bytes(generation, owner);
    assert(d.subrange(0, 8) =~= enc64(1));
    assert(d.subrange(8, 16) =~= enc64(generation));
    assert(d.subrange(16, 24) =~= enc64(2));
    assert(d.subrange(25, 33) =~= enc64(owner));
}

/// A reference to an extent as it is stored behind the record.
pub open spec fn stores_reference(d: Seq<u8>, b: BackrefV) -> bool {
    match b {
        BackrefV::TreeBlock { root } => d.len() == 9 && d[0] == 176 && has64(d, 1, root as int),
        BackrefV::ExtentData { root, objectid, offset, count } => {
            &&& d.len() == 29
            &&& d[0] == 178
            &&& has64(d, 1, root as int)
            &&& has64(d, 9, objectid as int)
            &&& has64(d, 17, offset as int)
            &&& has32(d, 25, count as int)
        },
        BackrefV::SharedBlock { parent } => d.len() == 9 && d[0] == 182 && has64(
            d,
            1,
            parent as int,
        ),
        BackrefV::SharedData { parent, count } => d.len() == 13 && d[0] == 184 && has64(
            d,
            1,
            parent as int,
        ) && has32(d, 9, count as int),
        BackrefV::Other { .. } => false,
    }
}

/// References are read as what was stored, one behind the other.
pub proof fn reference_reads_back(d: Seq<u8>, b: BackrefV, rest: Seq<u8>)
    requires
        stores_reference(d, b),
        parse_backrefs(rest) is Ok,
    ensures
        parse_backrefs(d + rest) == Ok::<Seq<BackrefV>, Fault>(
            seq![b] + parse_backrefs(rest)->Ok_0,
        ),
{
    broadcast use group_has_reads;

    let s = d + rest;
    assert(s.skip(d.len() as int) =~= rest);
    assert(s.subrange(1, 9) =~= d.subrange(1, 9));
    match b {
        BackrefV::TreeBlock { root } => {
            assert(has64(s, 1, root as int));
        },
        BackrefV::ExtentData { root, objectid, offset, count } => {
            assert(s.subrange(9, 17) =~= d.subrange(9, 17));
            assert(s.subrange(17, 25) =~= d.subrange(17, 25));
            assert(s.subrange(25, 29) =~= d.subrange(25, 29));
            assert(has64(s, 1, root as int));
            assert(has64(s, 9, objectid as int));
            assert(has64(s, 17, offset as int));
            assert(has32(s, 25, count as int));
        },
        BackrefV::SharedBlock { parent } => {
            assert(has64(s, 1, parent as int));
        },
        BackrefV::SharedData { parent, count } => {
            assert(s.subrange(9, 13) =~= d.subrange(9, 13));
            assert(has64(s, 1, parent as int));
            assert(has32(s, 9, count as int));
        },
        BackrefV::Other { .. } => {},
    }
}

/// A record of an extent: how many references it has, the transaction and flags,
/// under the key of type 168 with where it begins and how long it is. A tree
/// block's is under the key of type 169, with its level.
pub proof fn record_reads_back(
    d: Seq<u8>,
    at: u64,
    offset: u64,
    refs: u64,
    generation: u64,
    flags: u64,
    x: ExtentItem,
    y: MetadataItem,
)
    requires
        d.len() >= 24,
        has64(d, 0, refs as int),
        has64(d, 8, generation as int),
        has64(d, 16, flags as int),
        parse_backrefs(d.skip(24)) is Ok,
    ensures
        ({
            let k = Key { objectid: at, item_type: 168, offset };
            &&& extent_item_fault(k, d) is None
            &&& extent_item_matches(k, d, x) ==> x.bytenr == at && x.length == offset && x.refs
                == refs && x.generation == generation && x.flags == flags
        }),
        ({
            let k = Key { objectid: at, item_type: 169, offset };
            &&& metadata_item_fault(k, d) is None
            &&& metadata_item_matches(k, d, y) ==> y.bytenr == at && y.refs == refs && y.generation
                == generation && y.flags == flags && (offset < 256 ==> y.level == offset)
        }),
{
    broadcast use group_has_reads;

}

/// A checksum field that is right holds the checksum.
proof fn field_is_checksum(d: Seq<u8>, t: CsumType, data: Seq<u8>)
    requires
        d.len() >= 32,
        d.subrange(0, 32) == csum_field(t, data),
    ensures
        has_checksum(d, t, data),
{
    broadcast use group_enc_len;

    reveal(csum_field);
    match t {
        CsumType::Crc32c => {
            let f = csum_field(t, data);
            assert(d.subrange(0, 4) =~= f.subrange(0, 4));
            assert(f.subrange(0, 4) =~= enc32(crc_of(data)));
            assert forall|i: int| 4 <= i < 32 implies #[trigger] d[i] == 0 by {
                assert(d.subrange(0, 32)[i] == f[i]);
            }
        },
        CsumType::Sha256 => {},
    }
}

/// A node that is read was checked: its checksum is right, it says that it lies
/// where it was looked for, and it belongs to this filesystem. Any other block is
/// refused.
pub proof fn node_is_checked(d: Seq<u8>, bytenr: u64, t: CsumType, uuid: Seq<u8>)
    requires
        parse_node(d, bytenr, t, uuid) is Ok,
    ensures
        d.len() >= 101,
        has_checksum(d, t, d.subrange(32, d.len() as int)),
        d.subrange(32, 48) == uuid,
        le64(d, 48) == bytenr,
        ({
            let n = parse_node(d, bytenr, t, uuid)->Ok_0;
            &&& n.bytenr == bytenr
            &&& n.metadata_uuid == uuid
            &&& n.level == d[100]
        }),
{
    reveal(parse_node);
    field_is_checksum(d, t, d.subrange(32, d.len() as int));
}

/// A superblock copy that is read was checked: it has the magic number, its
/// checksum is right, and it says that it lies where it was looked for.
pub proof fn super_is_checked(d: Seq<u8>, offset: u64)
    requires
        parse_super(d, offset) is Ok,
    ensures
        d.len() >= 4096,
        d.subrange(0x40, 0x48) == seq![0x5Fu8, 0x42, 0x48, 0x52, 0x66, 0x53, 0x5F, 0x4D],
        has_checksum(d, parse_super(d, offset)->Ok_0.csum_type, d.subrange(32, 4096)),
        le64(d, 0x30) == offset,
        parse_super(d, offset)->Ok_0.sector_size > 0,
        parse_super(d, offset)->Ok_0.node_size > 0,
{
    reveal(parse_super);
    let s = parse_super(d, offset)->Ok_0;
    field_is_checksum(d, s.csum_type, d.subrange(32, 4096));
    magic_bytes(d);
}

proof fn magic_bytes(d: Seq<u8>)
    requires
        d.len() >= 4096,
        le64(d, 0x40) == 0x4D5F_5366_5248_425F,
    ensures
        d.subrange(0x40, 0x48) == seq![0x5Fu8, 0x42, 0x48, 0x52, 0x66, 0x53, 0x5F, 0x4D],
{
    reveal(le64);
    reveal(le32);
    assert(d.subrange(0x40, 0x48) =~= seq![
        0x5Fu8,
        0x42,
        0x48,
        0x52,
        0x66,
        0x53,
        0x5F,
        0x4D,
    ]);
}

/// A tree block is read from the first stripe of its chunk, as far from the stripe's
/// beginning as its address is from that of the chunk; one that reaches past the
/// end of its chunk is refused.
pub proof fn block_is_read_in_place(fs: FsV, p: int, x: u64)
    requires
        0 <= p < fs.chunks.len(),
        fs.chunks[p].logical <= x < fs.chunks[p].logical + fs.chunks[p].length,
        forall|q: int|
            0 <= q < fs.chunks.len() && q != p ==> !((#[trigger] fs.chunks[q]).logical <= x
                < fs.chunks[q].logical + fs.chunks[q].length),
        fs.chunks[p].chunk_type & 0x7D8 == 0,
        fs.chunks[p].stripes.len() > 0,
        forall|i: int|
            0 <= i < fs.chunks[p].stripes.len() ==> (#[trigger] fs.chunks[p].stripes[i]).offset
                + fs.chunks[p].length <= u64::MAX,
    ensures
        ({
            let c = fs.chunks[p];
            let at = c.stripes[0].offset + (x - c.logical);
            let n = fs.sb.node_size as int;
            &&& x + n > c.logical + c.length ==> disk_block(fs, x) is Err
            &&& x + n <= c.logical + c.length && at + n <= fs.disk.len() ==> disk_block(fs, x)
                == Ok::<Seq<u8>, Fault>(fs.disk.subrange(at, at + n))
        }),
{
    address_has_copies(fs.chunks, p, x);
    let y = locate(fs.chunks, x)->Ok_0;
    assert(y.0[0] == fs.chunks[p].stripes[0].offset + (x - fs.chunks[p].logical));
}

} // verus!
