//! A block that was written is read back as the node it was written from.

use vstd::prelude::*;

use crate::bytes::{
    enc32, enc64, group_enc_len, le32, le32_of_enc, le64, le64_of_enc, zeros,
};
use crate::error::Fault;
use crate::fs::btrfs::tree::{
    csum_field, csum_field_len, item_at, item_in_bounds, key_at, node_of, parse_node, payloads_in_bounds, ptr_at,
    CsumType, Item, Key, KeyPtr, NodeV,
};
use crate::fs::btrfs::write::node::{
    data_sum, data_sum_bound, data_sum_prefix, desc_block, desc_bytes, emit_interior, emit_leaf,
    entry_block, entry_bytes, header_bytes, interior_body, interior_used, key_bytes, leaf_body,
    leaf_used, payload_block, sealed, InteriorEntry, InteriorV, LeafV,
};

verus! {

proof fn key_read_back(raw: Seq<u8>, o: int, k: Key)
    requires
        0 <= o,
        o + 17 <= raw.len(),
        raw.subrange(o, o + 17) == key_bytes(k),
    ensures
        key_at(raw, o) == k,
{
    broadcast use group_enc_len;

    let b = key_bytes(k);
    assert(raw.subrange(o, o + 8) =~= enc64(k.objectid)) by {
        assert forall|i: int| 0 <= i < 8 implies raw[o + i] == enc64(k.objectid)[i] by {
            assert(raw[o + i] == b[i]);
        }
    }
    assert(raw[o + 8] == b[8]);
    assert(raw.subrange(o + 9, o + 17) =~= enc64(k.offset)) by {
        assert forall|i: int| 0 <= i < 8 implies raw[o + 9 + i] == enc64(k.offset)[i] by {
            assert(raw[o + 9 + i] == b[9 + i]);
        }
    }
    le64_of_enc(raw, o, k.objectid);
    le64_of_enc(raw, o + 9, k.offset);
}

proof fn desc_block_len(items: Seq<Item>, end: int)
    ensures
        desc_block(items, end).len() == 25 * items.len(),
    decreases items.len(),
{
    broadcast use group_enc_len;

    if items.len() > 0 {
        desc_block_len(items.drop_last(), end);
    }
}

proof fn desc_block_at(items: Seq<Item>, end: int, i: int)
    requires
        0 <= i < items.len(),
    ensures
        desc_block(items, end).len() == 25 * items.len(),
        desc_block(items, end).subrange(25 * i, 25 * i + 25) == desc_bytes(
            items[i],
            end - data_sum(items.take(i + 1)),
        ),
    decreases items.len(),
{
    broadcast use group_enc_len;

    desc_block_len(items, end);
    desc_block_len(items.drop_last(), end);
    let front = desc_block(items.drop_last(), end);
    let last = desc_bytes(items.last(), end - data_sum(items));
    let all = desc_block(items, end);
    assert(all == front + last);
    if i == items.len() - 1 {
        assert(items.take(i + 1) =~= items);
        assert(all.subrange(25 * i, 25 * i + 25) =~= last);
    } else {
        desc_block_at(items.drop_last(), end, i);
        assert(items.drop_last().take(i + 1) =~= items.take(i + 1));
        assert(all.subrange(25 * i, 25 * i + 25) =~= front.subrange(25 * i, 25 * i + 25));
    }
}

proof fn payload_block_len(items: Seq<Item>)
    ensures
        payload_block(items).len() == data_sum(items),
    decreases items.len(),
{
    if items.len() > 0 {
        payload_block_len(items.drop_last());
    }
}

proof fn payload_block_at(items: Seq<Item>, i: int)
    requires
        0 <= i < items.len(),
    ensures
        payload_block(items).len() == data_sum(items),
        0 <= data_sum(items.take(i + 1)) <= data_sum(items),
        data_sum(items.take(i + 1)) == data_sum(items.take(i)) + items[i].data.len(),
        data_sum(items.take(i)) >= 0,
        payload_block(items).subrange(
            data_sum(items) - data_sum(items.take(i + 1)),
            data_sum(items) - data_sum(items.take(i)),
        ) == items[i].data,
    decreases items.len(),
{
    payload_block_len(items);
    payload_block_len(items.drop_last());
    data_sum_prefix(items, i + 1);
    data_sum_prefix(items, i);
    assert(items.take(i + 1).drop_last() =~= items.take(i));
    let all = payload_block(items);
    let last = items.last().data;
    let rest = payload_block(items.drop_last());
    assert(all == last + rest);
    let a = data_sum(items) - data_sum(items.take(i + 1));
    let b = data_sum(items) - data_sum(items.take(i));
    if i == items.len() - 1 {
        assert(items.take(i + 1) =~= items);
        assert(items.take(i) =~= items.drop_last());
        assert(all.subrange(a, b) =~= items[i].data);
    } else {
        payload_block_at(items.drop_last(), i);
        assert(items.drop_last().take(i + 1) =~= items.take(i + 1));
        assert(items.drop_last().take(i) =~= items.take(i));
        let n = last.len();
        assert(all.subrange(a, b) =~= rest.subrange(a - n, b - n));
    }
}

/// The header fields of a block whose body begins with `header_bytes`.
proof fn header_read_back(
    raw: Seq<u8>,
    uuid: Seq<u8>,
    bytenr: u64,
    flags: u64,
    chunk_uuid: Seq<u8>,
    generation: u64,
    owner: u64,
    nr: u32,
    level: u8,
)
    requires
        raw.len() >= 101,
        uuid.len() == 16,
        chunk_uuid.len() == 16,
        raw.subrange(32, 101) == header_bytes(
            uuid,
            bytenr,
            flags,
            chunk_uuid,
            generation,
            owner,
            nr,
            level,
        ),
    ensures
        raw.subrange(32, 48) == uuid,
        le64(raw, 48) == bytenr,
        le64(raw, 56) == flags,
        raw.subrange(64, 80) == chunk_uuid,
        le64(raw, 80) == generation,
        le64(raw, 88) == owner,
        le32(raw, 96) == nr,
        raw[100] == level,
{
    broadcast use group_enc_len;

    let h = header_bytes(uuid, bytenr, flags, chunk_uuid, generation, owner, nr, level);
    assert forall|i: int| 32 <= i < 101 implies #[trigger] raw[i] == h[i - 32] by {
        assert(raw.subrange(32, 101)[i - 32] == raw[i]);
    }
    assert(raw.subrange(32, 48) =~= uuid);
    assert(raw.subrange(48, 56) =~= enc64(bytenr));
    assert(raw.subrange(56, 64) =~= enc64(flags));
    assert(raw.subrange(64, 80) =~= chunk_uuid);
    assert(raw.subrange(80, 88) =~= enc64(generation));
    assert(raw.subrange(88, 96) =~= enc64(owner));
    assert(raw.subrange(96, 100) =~= enc32(nr));
    le64_of_enc(raw, 48, bytenr);
    le64_of_enc(raw, 56, flags);
    le64_of_enc(raw, 80, generation);
    le64_of_enc(raw, 88, owner);
    le32_of_enc(raw, 96, nr);
}

/// A node's header and contents as they come out of a leaf.
pub open spec fn leaf_node(l: LeafV) -> NodeV {
    NodeV {
        bytenr: l.bytenr,
        generation: l.generation,
        owner: l.owner,
        flags: l.flags,
        level: 0,
        metadata_uuid: l.metadata_uuid,
        chunk_tree_uuid: l.chunk_tree_uuid,
        items: l.items,
        ptrs: Seq::empty(),
    }
}

/// An entry as the child pointer that it is written as.
pub open spec fn ptr_of(e: InteriorEntry) -> KeyPtr {
    KeyPtr { key: e.key, blockptr: e.blockptr, generation: e.generation }
}

/// A node's header and contents as they come out of an interior node.
pub open spec fn interior_node(n: InteriorV) -> NodeV {
    NodeV {
        bytenr: n.bytenr,
        generation: n.generation,
        owner: n.owner,
        flags: n.flags,
        level: n.level,
        metadata_uuid: n.metadata_uuid,
        chunk_tree_uuid: n.chunk_tree_uuid,
        items: Seq::empty(),
        ptrs: n.entries.map_values(|e: InteriorEntry| ptr_of(e)),
    }
}

proof fn sealed_parts(t: CsumType, body: Seq<u8>)
    ensures
        sealed(t, body).len() == 32 + body.len(),
        csum_field(t, body).len() == 32,
        sealed(t, body).subrange(0, 32) == csum_field(t, body),
        sealed(t, body).subrange(32, sealed(t, body).len() as int) == body,
{
    csum_field_len(t, body);
    broadcast use group_enc_len;

    let raw = sealed(t, body);
    assert(raw.subrange(0, 32) =~= csum_field(t, body));
    assert(raw.subrange(32, raw.len() as int) =~= body);
}

/// Where the descriptor of an item stands in a written leaf.
proof fn desc_placed(l: LeafV, size: u32, i: int)
    requires
        leaf_used(l.items) <= size,
        l.metadata_uuid.len() == 16,
        l.chunk_tree_uuid.len() == 16,
        0 <= i < l.items.len(),
    ensures
        ({
            let raw = sealed(l.csum_type, leaf_body(l, size as int));
            let at = size - 101 - data_sum(l.items.take(i + 1));
            let o = 101 + 25 * i;
            &&& raw.len() == size
            &&& o + 25 <= size
            &&& raw.subrange(o, o + 25) == desc_bytes(l.items[i], at)
        }),
{
    broadcast use group_enc_len;

    let body = leaf_body(l, size as int);
    let raw = sealed(l.csum_type, body);
    let items = l.items;
    sealed_parts(l.csum_type, body);
    data_sum_bound(items);
    desc_block_at(items, size - 101, i);
    payload_block_at(items, i);
    let head = header_bytes(
        l.metadata_uuid,
        l.bytenr,
        l.flags,
        l.chunk_tree_uuid,
        l.generation,
        l.owner,
        items.len() as u32,
        0,
    );
    let descs = desc_block(items, size - 101);
    let gap = zeros((size - leaf_used(items)) as nat);
    let area = payload_block(items);
    assert(head.len() == 69);
    assert(body == head + descs + gap + area);
    assert(raw.len() == size);
    let at = size - 101 - data_sum(items.take(i + 1));
    let d = desc_bytes(items[i], at);
    let o = 101 + 25 * i;
    assert forall|k: int| 0 <= k < 25 implies raw[o + k] == d[k] by {
        assert(raw[o + k] == body[o + k - 32]);
        assert(body[o + k - 32] == descs[25 * i + k]);
        assert(descs.subrange(25 * i, 25 * i + 25)[k] == descs[25 * i + k]);
    }
    assert(raw.subrange(o, o + 25) =~= d);
}

/// Where the payload of an item stands in a written leaf.
proof fn payload_placed(l: LeafV, size: u32, i: int)
    requires
        leaf_used(l.items) <= size,
        l.metadata_uuid.len() == 16,
        l.chunk_tree_uuid.len() == 16,
        0 <= i < l.items.len(),
    ensures
        ({
            let raw = sealed(l.csum_type, leaf_body(l, size as int));
            let off = size - data_sum(l.items.take(i + 1));
            let n = l.items[i].data.len();
            &&& 101 + 25 * l.items.len() <= off
            &&& off + n <= size
            &&& raw.subrange(off, off + n) == l.items[i].data
        }),
{
    broadcast use group_enc_len;

    let body = leaf_body(l, size as int);
    let raw = sealed(l.csum_type, body);
    let items = l.items;
    sealed_parts(l.csum_type, body);
    data_sum_bound(items);
    desc_block_at(items, size - 101, i);
    payload_block_at(items, i);
    let head = header_bytes(
        l.metadata_uuid,
        l.bytenr,
        l.flags,
        l.chunk_tree_uuid,
        l.generation,
        l.owner,
        items.len() as u32,
        0,
    );
    let descs = desc_block(items, size - 101);
    let gap = zeros((size - leaf_used(items)) as nat);
    let area = payload_block(items);
    assert(head.len() == 69);
    assert(body == head + descs + gap + area);
    assert(raw.len() == size);
    let at = size - 101 - data_sum(items.take(i + 1));
    let n = items[i].data.len();
    let off = 101 + at;
    let a = data_sum(items) - data_sum(items.take(i + 1));
    assert forall|k: int| 0 <= k < n implies raw[off + k] == items[i].data[k] by {
        assert(raw[off + k] == body[off + k - 32]);
        assert(body[off + k - 32] == area[a + k]);
        assert(area.subrange(a, a + n)[k] == area[a + k]);
    }
    assert(raw.subrange(off, off + n) =~= items[i].data);
}

proof fn item_read_back(l: LeafV, size: u32, i: int)
    requires
        leaf_used(l.items) <= size,
        l.metadata_uuid.len() == 16,
        l.chunk_tree_uuid.len() == 16,
        0 <= i < l.items.len(),
    ensures
        item_in_bounds(sealed(l.csum_type, leaf_body(l, size as int)), i),
        item_at(sealed(l.csum_type, leaf_body(l, size as int)), i) == l.items[i],
{
    broadcast use group_enc_len;

    let raw = sealed(l.csum_type, leaf_body(l, size as int));
    let items = l.items;
    let at = size - 101 - data_sum(items.take(i + 1));
    let o = 101 + 25 * i;
    let n = items[i].data.len();
    desc_placed(l, size, i);
    payload_placed(l, size, i);
    let d = desc_bytes(items[i], at);
    assert(raw.subrange(o, o + 17) =~= d.subrange(0, 17));
    assert(d.subrange(0, 17) =~= key_bytes(items[i].key));
    key_read_back(raw, o, items[i].key);
    assert(raw.subrange(o + 17, o + 21) =~= d.subrange(17, 21));
    assert(d.subrange(17, 21) =~= enc32(at as u32));
    assert(raw.subrange(o + 21, o + 25) =~= d.subrange(21, 25));
    assert(d.subrange(21, 25) =~= enc32(n as u32));
    data_sum_bound(items);
    data_sum_prefix(items, i + 1);
    le32_of_enc(raw, o + 17, at as u32);
    le32_of_enc(raw, o + 21, n as u32);
}

/// A leaf that was written is read back as it was.
pub proof fn leaf_round_trip(l: LeafV, size: u32)
    requires
        emit_leaf(l, size) is Ok,
        l.metadata_uuid.len() == 16,
        l.chunk_tree_uuid.len() == 16,
    ensures
        parse_node(emit_leaf(l, size)->Ok_0, l.bytenr, l.csum_type, l.metadata_uuid) == Ok::<
            NodeV,
            Fault,
        >(leaf_node(l)),
{
    broadcast use group_enc_len;

    reveal(emit_leaf);
    reveal(parse_node);
    let body = leaf_body(l, size as int);
    let raw = sealed(l.csum_type, body);
    sealed_parts(l.csum_type, body);
    data_sum_bound(l.items);
    desc_block_len(l.items, size - 101);
    payload_block_len(l.items);
    let head = header_bytes(
        l.metadata_uuid,
        l.bytenr,
        l.flags,
        l.chunk_tree_uuid,
        l.generation,
        l.owner,
        l.items.len() as u32,
        0,
    );
    assert(head.len() == 69);
    assert(raw.len() == size);
    assert(raw.subrange(32, 101) =~= head) by {
        assert forall|k: int| 0 <= k < 69 implies raw[32 + k] == head[k] by {
            assert(raw[32 + k] == body[k]);
        }
    }
    header_read_back(
        raw,
        l.metadata_uuid,
        l.bytenr,
        l.flags,
        l.chunk_tree_uuid,
        l.generation,
        l.owner,
        l.items.len() as u32,
        0,
    );
    assert(payloads_in_bounds(raw)) by {
        assert forall|i: int| 0 <= i < le32(raw, 96) implies item_in_bounds(raw, i) by {
            item_read_back(l, size, i);
        }
    }
    assert(node_of(raw).items =~= l.items) by {
        assert forall|i: int| 0 <= i < l.items.len() implies node_of(raw).items[i]
            == l.items[i] by {
            item_read_back(l, size, i);
        }
    }
    assert(node_of(raw) == leaf_node(l));
}

proof fn entry_block_len(entries: Seq<InteriorEntry>)
    ensures
        entry_block(entries).len() == 33 * entries.len(),
    decreases entries.len(),
{
    broadcast use group_enc_len;

    if entries.len() > 0 {
        entry_block_len(entries.drop_last());
    }
}

proof fn entry_block_at(entries: Seq<InteriorEntry>, i: int)
    requires
        0 <= i < entries.len(),
    ensures
        entry_block(entries).len() == 33 * entries.len(),
        entry_block(entries).subrange(33 * i, 33 * i + 33) == entry_bytes(entries[i]),
    decreases entries.len(),
{
    broadcast use group_enc_len;

    entry_block_len(entries);
    entry_block_len(entries.drop_last());
    let front = entry_block(entries.drop_last());
    let all = entry_block(entries);
    assert(all == front + entry_bytes(entries.last()));
    if i == entries.len() - 1 {
        assert(all.subrange(33 * i, 33 * i + 33) =~= entry_bytes(entries[i]));
    } else {
        entry_block_at(entries.drop_last(), i);
        assert(all.subrange(33 * i, 33 * i + 33) =~= front.subrange(33 * i, 33 * i + 33));
    }
}

proof fn entry_read_back(n: InteriorV, size: u32, i: int)
    requires
        interior_used(n.entries.len()) <= size,
        n.metadata_uuid.len() == 16,
        n.chunk_tree_uuid.len() == 16,
        0 <= i < n.entries.len(),
    ensures
        ptr_at(sealed(n.csum_type, interior_body(n, size as int)), i) == ptr_of(n.entries[i]),
{
    broadcast use group_enc_len;

    let body = interior_body(n, size as int);
    let raw = sealed(n.csum_type, body);
    let entries = n.entries;
    sealed_parts(n.csum_type, body);
    entry_block_at(entries, i);
    let head = header_bytes(
        n.metadata_uuid,
        n.bytenr,
        n.flags,
        n.chunk_tree_uuid,
        n.generation,
        n.owner,
        entries.len() as u32,
        n.level,
    );
    let block = entry_block(entries);
    assert(head.len() == 69);
    assert(body == head + block + zeros((size - interior_used(entries.len())) as nat));
    let e = entries[i];
    let d = entry_bytes(e);
    let o = 101 + 33 * i;
    assert(raw.subrange(o, o + 33) =~= d) by {
        assert forall|k: int| 0 <= k < 33 implies raw[o + k] == d[k] by {
            assert(raw[o + k] == body[o + k - 32]);
            assert(body[o + k - 32] == block[33 * i + k]);
            assert(block.subrange(33 * i, 33 * i + 33)[k] == block[33 * i + k]);
        }
    }
    assert(raw.subrange(o, o + 17) =~= key_bytes(e.key)) by {
        assert forall|k: int| 0 <= k < 17 implies raw[o + k] == key_bytes(e.key)[k] by {
            assert(raw.subrange(o, o + 33)[k] == raw[o + k]);
        }
    }
    key_read_back(raw, o, e.key);
    assert(raw.subrange(o + 17, o + 25) =~= enc64(e.blockptr)) by {
        assert forall|k: int| 0 <= k < 8 implies raw[o + 17 + k] == enc64(e.blockptr)[k] by {
            assert(raw.subrange(o, o + 33)[17 + k] == raw[o + 17 + k]);
        }
    }
    assert(raw.subrange(o + 25, o + 33) =~= enc64(e.generation)) by {
        assert forall|k: int| 0 <= k < 8 implies raw[o + 25 + k] == enc64(e.generation)[k] by {
            assert(raw.subrange(o, o + 33)[25 + k] == raw[o + 25 + k]);
        }
    }
    le64_of_enc(raw, o + 17, e.blockptr);
    le64_of_enc(raw, o + 25, e.generation);
}

/// An interior node that was written is read back as it was.
pub proof fn interior_round_trip(n: InteriorV, size: u32)
    requires
        emit_interior(n, size) is Ok,
        n.level > 0,
        n.metadata_uuid.len() == 16,
        n.chunk_tree_uuid.len() == 16,
    ensures
        parse_node(emit_interior(n, size)->Ok_0, n.bytenr, n.csum_type, n.metadata_uuid) == Ok::<
            NodeV,
            Fault,
        >(interior_node(n)),
{
    broadcast use group_enc_len;

    reveal(emit_interior);
    reveal(parse_node);
    let body = interior_body(n, size as int);
    let raw = sealed(n.csum_type, body);
    sealed_parts(n.csum_type, body);
    entry_block_len(n.entries);
    let head = header_bytes(
        n.metadata_uuid,
        n.bytenr,
        n.flags,
        n.chunk_tree_uuid,
        n.generation,
        n.owner,
        n.entries.len() as u32,
        n.level,
    );
    assert(head.len() == 69);
    assert(raw.len() == size);
    assert(raw.subrange(32, 101) =~= head) by {
        assert forall|k: int| 0 <= k < 69 implies raw[32 + k] == head[k] by {
            assert(raw[32 + k] == body[k]);
        }
    }
    header_read_back(
        raw,
        n.metadata_uuid,
        n.bytenr,
        n.flags,
        n.chunk_tree_uuid,
        n.generation,
        n.owner,
        n.entries.len() as u32,
        n.level,
    );
    assert(node_of(raw).ptrs =~= interior_node(n).ptrs) by {
        assert forall|i: int| 0 <= i < n.entries.len() implies node_of(raw).ptrs[i]
            == ptr_of(n.entries[i]) by {
            entry_read_back(n, size, i);
        }
    }
    assert(node_of(raw) == interior_node(n));
}

} // verus!
