//! In-memory B-tree node surgery.
//!
//! Nodes are edited in memory and emitted as byte-exact on-disk blocks with
//! valid checksums, ready to be read back by [`Node`].

use vstd::prelude::*;

use crate::bytes::{append_bytes, append_u32, append_u64, append_zeros, enc32, enc64, zeros};
use crate::error::{text, Fault, LuksError, Outcome, Result};
use crate::fs::btrfs::tree::{
    csum_field, items_of, item_label, item_type_name, CsumType, Item, Key, KeyPtr, Node, NodeV,
    HEADER_SIZE, ITEM_SIZE, KEY_PTR_SIZE,
};
use crate::sort::{sort_ranked, stable_sort, Ranked};

pub use crate::fs::btrfs::tree::LeafItem;

verus! {

/// Flag of a header that has been written.
pub const HEADER_FLAG_WRITTEN: u64 = 1;

/// The largest payload that a leaf of `node_size` bytes can ever hold.
pub open spec fn payload_limit(node_size: u32) -> int {
    if node_size >= 126 {
        node_size - 126
    } else {
        0
    }
}

/// The largest item payload a leaf of `node_size` bytes can hold, ever.
///
/// One header, one item descriptor, and the rest is payload. Anything larger
/// cannot be stored by splitting or by freeing space.
pub fn max_item_payload_bytes(node_size: u32) -> (r: usize)
    ensures
        r == payload_limit(node_size),
{
    (node_size as usize).saturating_sub(HEADER_SIZE).saturating_sub(ITEM_SIZE)
}

/// Payload bytes of `items` in all.
pub open spec fn data_sum(items: Seq<Item>) -> int
    decreases items.len(),
{
    if items.len() == 0 {
        0
    } else {
        data_sum(items.drop_last()) + items.last().data.len()
    }
}

/// Bytes that `items` take up in a leaf, header included.
pub open spec fn leaf_used(items: Seq<Item>) -> int {
    101 + 25 * items.len() + data_sum(items)
}

/// How many of the leading items sort before `key`: where a search for `key`
/// ends, and where an item with that key belongs.
pub open spec fn slot(items: Seq<Item>, key: Key) -> int
    decreases items.len(),
{
    if items.len() == 0 {
        0
    } else {
        let p = slot(items.drop_last(), key);
        if p < items.len() - 1 || items.last().key.ord() >= key.ord() {
            p
        } else {
            items.len() as int
        }
    }
}

/// Whether the item at `slot` is the one with `key`.
pub open spec fn has_key(items: Seq<Item>, key: Key) -> bool {
    slot(items, key) < items.len() && items[slot(items, key)].key == key
}

/// `slot` is the first position whose key is not before `key`.
pub proof fn slot_bounds(items: Seq<Item>, key: Key)
    ensures
        0 <= slot(items, key) <= items.len(),
        forall|j: int|
            0 <= j < slot(items, key) ==> (#[trigger] items[j]).key.ord() < key.ord(),
        slot(items, key) < items.len() ==> items[slot(items, key)].key.ord() >= key.ord(),
    decreases items.len(),
{
    if items.len() > 0 {
        slot_bounds(items.drop_last(), key);
        let p = slot(items.drop_last(), key);
        assert forall|j: int| 0 <= j < slot(items, key) implies (
        #[trigger] items[j]).key.ord() < key.ord() by {
            if j < items.len() - 1 {
                assert(items.drop_last()[j] == items[j]);
            }
        }
        if p < items.len() - 1 {
            assert(items.drop_last()[p] == items[p]);
        }
    }
}

/// A position with that property is `slot`.
pub proof fn slot_unique(items: Seq<Item>, key: Key, p: int)
    requires
        0 <= p <= items.len(),
        forall|j: int| 0 <= j < p ==> (#[trigger] items[j]).key.ord() < key.ord(),
        p < items.len() ==> items[p].key.ord() >= key.ord(),
    ensures
        slot(items, key) == p,
{
    slot_bounds(items, key);
    let q = slot(items, key);
    if q < p {
        assert(items[q].key.ord() < key.ord());
    } else if p < q {
        assert(items[p].key.ord() < key.ord());
    }
}

/// Sum of non-negative payload lengths.
pub proof fn data_sum_bound(items: Seq<Item>)
    ensures
        data_sum(items) >= 0,
    decreases items.len(),
{
    if items.len() > 0 {
        data_sum_bound(items.drop_last());
    }
}

/// Payload bytes of adjoined runs of items add up.
pub proof fn data_sum_concat(a: Seq<Item>, b: Seq<Item>)
    ensures
        data_sum(a + b) == data_sum(a) + data_sum(b),
    decreases b.len(),
{
    if b.len() == 0 {
        assert(a + b =~= a);
    } else {
        assert((a + b).drop_last() =~= a + b.drop_last());
        data_sum_concat(a, b.drop_last());
    }
}

/// Payload bytes of a prefix are no more than of the whole.
pub proof fn data_sum_prefix(items: Seq<Item>, i: int)
    requires
        0 <= i <= items.len(),
    ensures
        0 <= data_sum(items.take(i)) <= data_sum(items),
{
    assert(items =~= items.take(i) + items.skip(i));
    data_sum_concat(items.take(i), items.skip(i));
    data_sum_bound(items.take(i));
    data_sum_bound(items.skip(i));
}

/// Payload bytes of `items`, capped at `u64::MAX`.
pub fn payload_bytes(items: &Vec<LeafItem>) -> (r: u64)
    ensures
        r == if data_sum(items_of(items@)) > u64::MAX {
            u64::MAX as int
        } else {
            data_sum(items_of(items@))
        },
{
    let mut sum: u64 = 0;
    let mut i: usize = 0;
    let ghost all = items_of(items@);
    assert(all.take(0) =~= Seq::<Item>::empty());
    while i < items.len()
        invariant
            i <= items@.len(),
            all == items_of(items@),
            sum == if data_sum(all.take(i as int)) > u64::MAX {
                u64::MAX as int
            } else {
                data_sum(all.take(i as int))
            },
        decreases items@.len() - i,
    {
        proof {
            assert(all.take(i + 1).drop_last() =~= all.take(i as int));
            data_sum_bound(all.take(i as int));
            assert(all[i as int] == items@[i as int]@);
        }
        sum = sum.saturating_add(items[i].data.len() as u64);
        i += 1;
    }
    assert(all.take(items@.len() as int) =~= all);
    sum
}

/// Bytes that `items` take up in a leaf, capped at `u64::MAX`.
pub fn used_bytes(items: &Vec<LeafItem>) -> (r: u64)
    ensures
        r == if leaf_used(items_of(items@)) > u64::MAX {
            u64::MAX as int
        } else {
            leaf_used(items_of(items@))
        },
{
    let n: u64 = items.len() as u64;
    let d: u64 = payload_bytes(items);
    proof {
        data_sum_bound(items_of(items@));
    }
    let descs: u64 = if n > 0xFFFF_FFFF_FFFF_FFFF / 25 {
        u64::MAX
    } else {
        n * 25
    };
    descs.saturating_add(101).saturating_add(d)
}

/// Where a search for `key` in `items` ends.
pub fn find_slot(items: &Vec<LeafItem>, key: &Key) -> (r: usize)
    ensures
        r == slot(items_of(items@), *key),
        r <= items@.len(),
{
    let mut i: usize = 0;
    let ghost all = items_of(items@);
    while i < items.len() && items[i].key.before(key)
        invariant
            i <= items@.len(),
            all == items_of(items@),
            forall|j: int| 0 <= j < i ==> (#[trigger] all[j]).key.ord() < key.ord(),
        decreases items@.len() - i,
    {
        assert(all[i as int] == items@[i as int]@);
        i += 1;
    }
    proof {
        if i < items@.len() {
            assert(all[i as int] == items@[i as int]@);
        }
        slot_unique(all, *key, i as int);
    }
    i
}

/// Items `i` up to `j`, copied.
pub fn copy_items(items: &Vec<LeafItem>, i: usize, j: usize) -> (r: Vec<LeafItem>)
    requires
        i <= j <= items@.len(),
    ensures
        items_of(r@) == items_of(items@).subrange(i as int, j as int),
{
    let mut r: Vec<LeafItem> = Vec::new();
    let mut k: usize = i;
    while k < j
        invariant
            i <= k <= j <= items@.len(),
            items_of(r@) == items_of(items@).subrange(i as int, k as int),
        decreases j - k,
    {
        let ghost before = r@;
        r.push(items[k].clone());
        proof {
            assert(items_of(r@) =~= items_of(before).push(items@[k as int]@));
            assert(items_of(r@) =~= items_of(items@).subrange(i as int, k + 1));
        }
        k += 1;
    }
    assert(items_of(r@) =~= items_of(items@).subrange(i as int, j as int));
    r
}

/// An editable leaf (level 0).
#[derive(Debug, PartialEq, Eq)]
pub struct Leaf {
    pub bytenr: u64,
    pub generation: u64,
    pub owner: u64,
    pub flags: u64,
    pub metadata_uuid: [u8; 16],
    pub chunk_tree_uuid: [u8; 16],
    pub csum_type: CsumType,
    pub items: Vec<LeafItem>,
}

/// The mathematical view of a [`Leaf`].
pub struct LeafV {
    pub bytenr: u64,
    pub generation: u64,
    pub owner: u64,
    pub flags: u64,
    pub metadata_uuid: Seq<u8>,
    pub chunk_tree_uuid: Seq<u8>,
    pub csum_type: CsumType,
    pub items: Seq<Item>,
}

impl View for Leaf {
    type V = LeafV;

    open spec fn view(&self) -> LeafV {
        LeafV {
            bytenr: self.bytenr,
            generation: self.generation,
            owner: self.owner,
            flags: self.flags,
            metadata_uuid: self.metadata_uuid@,
            chunk_tree_uuid: self.chunk_tree_uuid@,
            csum_type: self.csum_type,
            items: items_of(self.items@),
        }
    }
}

/// The leaf that a level-0 node holds.
pub open spec fn leaf_of(n: NodeV, t: CsumType) -> LeafV {
    LeafV {
        bytenr: n.bytenr,
        generation: n.generation,
        owner: n.owner,
        flags: n.flags,
        metadata_uuid: n.metadata_uuid,
        chunk_tree_uuid: n.chunk_tree_uuid,
        csum_type: t,
        items: n.items,
    }
}

/// The node header behind the checksum field.
pub open spec fn header_bytes(
    uuid: Seq<u8>,
    bytenr: u64,
    flags: u64,
    chunk_uuid: Seq<u8>,
    generation: u64,
    owner: u64,
    nr: u32,
    level: u8,
) -> Seq<u8> {
    uuid + enc64(bytenr) + enc64(flags) + chunk_uuid + enc64(generation) + enc64(owner) + enc32(nr)
        + seq![level]
}

/// A key on disk.
pub open spec fn key_bytes(k: Key) -> Seq<u8> {
    enc64(k.objectid) + seq![k.item_type] + enc64(k.offset)
}

/// An item descriptor on disk.
pub open spec fn desc_bytes(it: Item, offset: int) -> Seq<u8> {
    key_bytes(it.key) + enc32(offset as u32) + enc32(it.data.len() as u32)
}

/// The item descriptors of a leaf whose payload area ends at `end`.
pub open spec fn desc_block(items: Seq<Item>, end: int) -> Seq<u8>
    decreases items.len(),
{
    if items.len() == 0 {
        Seq::empty()
    } else {
        desc_block(items.drop_last(), end) + desc_bytes(items.last(), end - data_sum(items))
    }
}

/// The payload area of a leaf: the first item's payload comes last.
pub open spec fn payload_block(items: Seq<Item>) -> Seq<u8>
    decreases items.len(),
{
    if items.len() == 0 {
        Seq::empty()
    } else {
        items.last().data + payload_block(items.drop_last())
    }
}

/// A leaf of `size` bytes behind its checksum field.
pub open spec fn leaf_body(l: LeafV, size: int) -> Seq<u8> {
    header_bytes(
        l.metadata_uuid,
        l.bytenr,
        l.flags,
        l.chunk_tree_uuid,
        l.generation,
        l.owner,
        l.items.len() as u32,
        0,
    ) + desc_block(l.items, size - 101) + zeros((size - leaf_used(l.items)) as nat) + payload_block(
        l.items,
    )
}

/// A body under its checksum.
pub open spec fn sealed(t: CsumType, body: Seq<u8>) -> Seq<u8> {
    csum_field(t, body) + body
}

/// The block that a leaf is written as.
#[verifier::opaque]
pub open spec fn emit_leaf(l: LeafV, node_size: u32) -> Outcome<Seq<u8>> {
    if leaf_used(l.items) > node_size {
        Err(Fault::FilesystemFull)
    } else {
        Ok(sealed(l.csum_type, leaf_body(l, node_size as int)))
    }
}

/// What inserting an item into a leaf does to its items.
pub open spec fn insert_into(items: Seq<Item>, it: Item, node_size: u32) -> Outcome<Seq<Item>> {
    if it.data.len() > payload_limit(node_size) {
        Err(
            Fault::BtrfsItemTooLarge {
                what: item_label(it.key.item_type),
                item_bytes: it.data.len(),
                node_size: node_size as nat,
            },
        )
    } else if leaf_used(items) + 25 + it.data.len() > node_size {
        Err(Fault::FilesystemFull)
    } else if has_key(items, it.key) {
        Err(Fault::AlreadyExists("duplicate key in leaf"@))
    } else {
        Ok(items.insert(slot(items, it.key), it))
    }
}

fn append_header(
    v: &mut Vec<u8>,
    uuid: &[u8; 16],
    bytenr: u64,
    flags: u64,
    chunk_uuid: &[u8; 16],
    generation: u64,
    owner: u64,
    nr: u32,
    level: u8,
)
    ensures
        final(v)@ == old(v)@ + header_bytes(
            uuid@,
            bytenr,
            flags,
            chunk_uuid@,
            generation,
            owner,
            nr,
            level,
        ),
{
    append_bytes(v, uuid.as_slice());
    append_u64(v, bytenr);
    append_u64(v, flags);
    append_bytes(v, chunk_uuid.as_slice());
    append_u64(v, generation);
    append_u64(v, owner);
    append_u32(v, nr);
    v.push(level);
    assert(v@ =~= old(v)@ + header_bytes(
        uuid@,
        bytenr,
        flags,
        chunk_uuid@,
        generation,
        owner,
        nr,
        level,
    ));
}

fn append_key(v: &mut Vec<u8>, k: &Key)
    ensures
        final(v)@ == old(v)@ + key_bytes(*k),
{
    append_u64(v, k.objectid);
    v.push(k.item_type);
    append_u64(v, k.offset);
    assert(v@ =~= old(v)@ + key_bytes(*k));
}

fn seal(t: CsumType, body: &Vec<u8>) -> (r: Vec<u8>)
    ensures
        r@ == sealed(t, body@),
{
    let mut raw = t.calculate(body.as_slice());
    append_bytes(&mut raw, body.as_slice());
    raw
}

impl Leaf {
    /// An empty leaf.
    pub fn new(
        bytenr: u64,
        generation: u64,
        owner: u64,
        metadata_uuid: [u8; 16],
        csum_type: CsumType,
    ) -> (r: Self)
        ensures
            r@ == (LeafV {
                bytenr,
                generation,
                owner,
                flags: HEADER_FLAG_WRITTEN,
                metadata_uuid: metadata_uuid@,
                chunk_tree_uuid: zeros(16),
                csum_type,
                items: Seq::empty(),
            }),
    {
        let r = Leaf {
            bytenr,
            generation,
            owner,
            flags: HEADER_FLAG_WRITTEN,
            metadata_uuid,
            chunk_tree_uuid: [0u8; 16],
            csum_type,
            items: Vec::new(),
        };
        assert(r@.chunk_tree_uuid =~= zeros(16));
        assert(r@.items =~= Seq::<Item>::empty());
        r
    }

    /// An editable copy of a level-0 node.
    pub fn from_node(node: &Node, csum_type: CsumType) -> (r: Result<Self>)
        ensures
            match r {
                Ok(l) => node@.level == 0 && l@ == leaf_of(node@, csum_type),
                Err(e) => node@.level != 0 && e@ == Fault::CorruptFs(
                    "cannot convert interior node to leaf"@,
                ),
            },
    {
        if !node.is_leaf() {
            return Err(LuksError::CorruptFs("cannot convert interior node to leaf"));
        }
        let items = copy_items(&node.items, 0, node.items.len());
        assert(items_of(items@) =~= node@.items);
        Ok(
            Leaf {
                bytenr: node.bytenr,
                generation: node.generation,
                owner: node.owner,
                flags: node.flags,
                metadata_uuid: node.metadata_uuid,
                chunk_tree_uuid: node.chunk_tree_uuid,
                csum_type,
                items,
            },
        )
    }

    /// Payload bytes in this leaf, capped at `usize::MAX`.
    pub fn total_data_bytes(&self) -> (r: usize)
        ensures
            r == if data_sum(self@.items) > usize::MAX {
                usize::MAX as int
            } else {
                data_sum(self@.items)
            },
    {
        let d: u64 = payload_bytes(&self.items);
        if d > usize::MAX as u64 {
            usize::MAX
        } else {
            d as usize
        }
    }

    /// Bytes available for new descriptors and payloads.
    pub fn free_space(&self, node_size: u32) -> (r: usize)
        ensures
            r == if leaf_used(self@.items) > node_size {
                0
            } else {
                node_size - leaf_used(self@.items)
            },
    {
        let used: u64 = used_bytes(&self.items);
        proof {
            data_sum_bound(self@.items);
        }
        if used > node_size as u64 {
            0
        } else {
            (node_size as u64 - used) as usize
        }
    }

    /// The position of the item with `key`.
    pub fn find_item(&self, key: &Key) -> (r: Option<usize>)
        ensures
            match r {
                Some(i) => has_key(self@.items, *key) && i == slot(self@.items, *key),
                None => !has_key(self@.items, *key),
            },
    {
        let i: usize = find_slot(&self.items, key);
        if i < self.items.len() {
            assert(self@.items[i as int] == self.items@[i as int]@);
            if self.items[i].key == *key {
                return Some(i);
            }
        }
        None
    }

    /// Put `data` in place of the payload at position `i`.
    pub fn set_data(&mut self, i: usize, data: Vec<u8>)
        requires
            i < old(self)@.items.len(),
        ensures
            final(self)@ == (LeafV {
                items: old(self)@.items.update(
                    i as int,
                    Item { key: old(self)@.items[i as int].key, data: data@ },
                ),
                ..old(self)@
            }),
    {
        let key = self.items[i].key;
        let ghost it = Item { key: self@.items[i as int].key, data: data@ };
        let ghost before = self.items@;
        assert(self@.items[i as int] == before[i as int]@);
        self.items.set(i, LeafItem { key, data });
        assert(items_of(self.items@) =~= items_of(before).update(i as int, it));
    }

    /// Replace the payload of the item with `key`.
    pub fn replace_item(&mut self, key: &Key, new_data: Vec<u8>) -> (r: Result<()>)
        ensures
            match r {
                Ok(()) => has_key(old(self)@.items, *key) && final(self)@ == (LeafV {
                    items: old(self)@.items.update(
                        slot(old(self)@.items, *key),
                        Item { key: *key, data: new_data@ },
                    ),
                    ..old(self)@
                }),
                Err(e) => !has_key(old(self)@.items, *key) && e@ == Fault::NotFound(
                    "item key not found in leaf"@,
                ) && final(self)@ == old(self)@,
            },
    {
        proof {
            slot_bounds(self@.items, *key);
        }
        match self.find_item(key) {
            None => Err(LuksError::NotFound(text("item key not found in leaf"))),
            Some(i) => {
                self.set_data(i, new_data);
                Ok(())
            },
        }
    }

    /// Insert a new item in key order.
    ///
    /// Two failures are told apart: an item larger than an empty leaf can never
    /// be placed, while one that merely does not fit this leaf can be placed by
    /// splitting.
    pub fn insert_item(&mut self, key: Key, data: Vec<u8>, node_size: u32) -> (r: Result<()>)
        ensures
            match r {
                Ok(()) => {
                    &&& insert_into(
                        old(self)@.items,
                        Item { key, data: data@ },
                        node_size,
                    ) is Ok
                    &&& final(self)@ == (LeafV {
                        items: insert_into(
                            old(self)@.items,
                            Item { key, data: data@ },
                            node_size,
                        )->Ok_0,
                        ..old(self)@
                    })
                },
                Err(e) => {
                    &&& insert_into(
                        old(self)@.items,
                        Item { key, data: data@ },
                        node_size,
                    ) == Err::<Seq<Item>, Fault>(e@)
                    &&& final(self)@ == old(self)@
                },
            },
    {
        proof {
            data_sum_bound(self@.items);
        }
        if data.len() > max_item_payload_bytes(node_size) {
            return Err(
                LuksError::BtrfsItemTooLarge {
                    what: item_type_name(key.item_type),
                    item_bytes: data.len(),
                    node_size,
                },
            );
        }
        let free: usize = self.free_space(node_size);
        if free < ITEM_SIZE || data.len() > free - ITEM_SIZE {
            return Err(LuksError::FilesystemFull);
        }
        let pos: usize = find_slot(&self.items, &key);
        if pos < self.items.len() {
            assert(self@.items[pos as int] == self.items@[pos as int]@);
            if self.items[pos].key == key {
                return Err(LuksError::AlreadyExists(text("duplicate key in leaf")));
            }
        }
        let ghost before = self.items@;
        let ghost it = Item { key, data: data@ };
        self.items.insert(pos, LeafItem { key, data });
        assert(items_of(self.items@) =~= items_of(before).insert(pos as int, it));
        Ok(())
    }

    /// Delete the item with `key` and return its payload.
    pub fn delete_item(&mut self, key: &Key) -> (r: Result<Vec<u8>>)
        ensures
            match r {
                Ok(d) => {
                    &&& has_key(old(self)@.items, *key)
                    &&& d@ == old(self)@.items[slot(old(self)@.items, *key)].data
                    &&& final(self)@ == (LeafV {
                        items: old(self)@.items.remove(slot(old(self)@.items, *key)),
                        ..old(self)@
                    })
                },
                Err(e) => !has_key(old(self)@.items, *key) && e@ == Fault::NotFound(
                    "item key not found in leaf"@,
                ) && final(self)@ == old(self)@,
            },
    {
        proof {
            slot_bounds(self@.items, *key);
        }
        match self.find_item(key) {
            None => Err(LuksError::NotFound(text("item key not found in leaf"))),
            Some(i) => {
                let ghost before = self.items@;
                assert(self@.items[i as int] == before[i as int]@);
                let it = self.items.remove(i);
                assert(items_of(self.items@) =~= items_of(before).remove(i as int));
                Ok(it.data)
            },
        }
    }

    /// Split into a left leaf, a right leaf at `right_bytenr` and the lowest key
    /// of the right one.
    pub fn split(&self, right_bytenr: u64) -> (r: Result<(Leaf, Leaf, Key)>)
        ensures
            match r {
                Ok((left, right, pivot)) => {
                    let mid = self@.items.len() as int / 2;
                    &&& self@.items.len() >= 2
                    &&& left@ == (LeafV { items: self@.items.take(mid), ..self@ })
                    &&& right@ == (LeafV {
                        bytenr: right_bytenr,
                        items: self@.items.skip(mid),
                        ..self@
                    })
                    &&& pivot == self@.items[mid].key
                },
                Err(e) => self@.items.len() < 2 && e@ == Fault::CorruptFs(
                    "cannot split leaf with fewer than 2 items"@,
                ),
            },
    {
        let n: usize = self.items.len();
        if n < 2 {
            return Err(LuksError::CorruptFs("cannot split leaf with fewer than 2 items"));
        }
        let mid: usize = n / 2;
        let left_items = copy_items(&self.items, 0, mid);
        let right_items = copy_items(&self.items, mid, n);
        let pivot = self.items[mid].key;
        assert(self@.items[mid as int] == self.items@[mid as int]@);
        assert(items_of(left_items@) =~= self@.items.take(mid as int));
        assert(items_of(right_items@) =~= self@.items.skip(mid as int));
        let left = Leaf {
            bytenr: self.bytenr,
            generation: self.generation,
            owner: self.owner,
            flags: self.flags,
            metadata_uuid: self.metadata_uuid,
            chunk_tree_uuid: self.chunk_tree_uuid,
            csum_type: self.csum_type,
            items: left_items,
        };
        let right = Leaf {
            bytenr: right_bytenr,
            generation: self.generation,
            owner: self.owner,
            flags: self.flags,
            metadata_uuid: self.metadata_uuid,
            chunk_tree_uuid: self.chunk_tree_uuid,
            csum_type: self.csum_type,
            items: right_items,
        };
        Ok((left, right, pivot))
    }

    /// Serialize into the on-disk block: descriptors grow up behind the header,
    /// payloads grow down from the end, the gap is zero.
    pub fn emit(&self, node_size: u32) -> (r: Result<Vec<u8>>)
        ensures
            match r {
                Ok(raw) => emit_leaf(self@, node_size) == Ok::<Seq<u8>, Fault>(raw@),
                Err(e) => emit_leaf(self@, node_size) == Err::<Seq<u8>, Fault>(e@),
            },
    {
        reveal(emit_leaf);
        let ghost all = self@.items;
        proof {
            data_sum_bound(all);
        }
        let used: u64 = used_bytes(&self.items);
        if used > node_size as u64 {
            return Err(LuksError::FilesystemFull);
        }
        let n: usize = self.items.len();
        let mut body: Vec<u8> = Vec::new();
        append_header(
            &mut body,
            &self.metadata_uuid,
            self.bytenr,
            self.flags,
            &self.chunk_tree_uuid,
            self.generation,
            self.owner,
            n as u32,
            0,
        );
        let ghost head = body@;
        let ghost end = node_size - 101;
        let mut offset: u32 = node_size - 101;
        let mut i: usize = 0;
        assert(all.take(0) =~= Seq::<Item>::empty());
        assert(body@ =~= head + desc_block(all.take(0), end));
        while i < n
            invariant
                i <= n,
                n == self.items@.len(),
                all == items_of(self.items@),
                end == node_size - 101,
                leaf_used(all) <= node_size,
                offset == end - data_sum(all.take(i as int)),
                body@ == head + desc_block(all.take(i as int), end),
            decreases n - i,
        {
            proof {
                data_sum_prefix(all, i + 1);
                assert(all.take(i + 1).drop_last() =~= all.take(i as int));
                assert(all.take(i + 1).last() == self.items@[i as int]@);
            }
            let len: usize = self.items[i].data.len();
            offset = offset - len as u32;
            append_key(&mut body, &self.items[i].key);
            append_u32(&mut body, offset);
            append_u32(&mut body, len as u32);
            i += 1;
            assert(body@ =~= head + desc_block(all.take(i as int), end));
        }
        assert(all.take(n as int) =~= all);
        append_zeros(&mut body, (node_size as u64 - used) as usize);
        let ghost front = body@;
        let mut k: usize = n;
        assert(body@ + payload_block(all.take(n as int)) =~= front + payload_block(all));
        while k > 0
            invariant
                k <= n,
                n == self.items@.len(),
                all == items_of(self.items@),
                body@ + payload_block(all.take(k as int)) == front + payload_block(all),
            decreases k,
        {
            let ghost now = body@;
            k -= 1;
            append_bytes(&mut body, self.items[k].data.as_slice());
            proof {
                assert(all.take(k + 1).drop_last() =~= all.take(k as int));
                assert(all.take(k + 1).last() == self.items@[k as int]@);
                assert(body@ + payload_block(all.take(k as int)) =~= now + (
                self.items@[k as int]@.data + payload_block(all.take(k as int))));
            }
        }
        assert(all.take(0) =~= Seq::<Item>::empty());
        assert(body@ =~= front + payload_block(all));
        assert(body@ =~= leaf_body(self@, node_size as int));
        Ok(seal(self.csum_type, &body))
    }
}

/// An entry of an interior node (level > 0).
#[derive(Debug, Clone, Copy, PartialEq, Eq, Structural)]
pub struct InteriorEntry {
    pub key: Key,
    pub blockptr: u64,
    pub generation: u64,
}

impl Ranked for InteriorEntry {
    open spec fn rank(&self) -> int {
        self.key.ord()
    }

    fn rank_le(&self, other: &Self) -> (r: bool) {
        !other.key.before(&self.key)
    }
}

/// An editable interior node (level > 0).
#[derive(Debug, PartialEq, Eq)]
pub struct InteriorNode {
    pub bytenr: u64,
    pub generation: u64,
    pub owner: u64,
    pub level: u8,
    pub flags: u64,
    pub metadata_uuid: [u8; 16],
    pub chunk_tree_uuid: [u8; 16],
    pub csum_type: CsumType,
    pub entries: Vec<InteriorEntry>,
}

/// The mathematical view of an [`InteriorNode`].
pub struct InteriorV {
    pub bytenr: u64,
    pub generation: u64,
    pub owner: u64,
    pub level: u8,
    pub flags: u64,
    pub metadata_uuid: Seq<u8>,
    pub chunk_tree_uuid: Seq<u8>,
    pub csum_type: CsumType,
    pub entries: Seq<InteriorEntry>,
}

impl View for InteriorNode {
    type V = InteriorV;

    open spec fn view(&self) -> InteriorV {
        InteriorV {
            bytenr: self.bytenr,
            generation: self.generation,
            owner: self.owner,
            level: self.level,
            flags: self.flags,
            metadata_uuid: self.metadata_uuid@,
            chunk_tree_uuid: self.chunk_tree_uuid@,
            csum_type: self.csum_type,
            entries: self.entries@,
        }
    }
}

/// A child pointer as an editable entry.
pub open spec fn entry_of(p: KeyPtr) -> InteriorEntry {
    InteriorEntry { key: p.key, blockptr: p.blockptr, generation: p.generation }
}

/// The interior node that a node above level 0 holds.
pub open spec fn interior_of(n: NodeV, t: CsumType) -> InteriorV {
    InteriorV {
        bytenr: n.bytenr,
        generation: n.generation,
        owner: n.owner,
        level: n.level,
        flags: n.flags,
        metadata_uuid: n.metadata_uuid,
        chunk_tree_uuid: n.chunk_tree_uuid,
        csum_type: t,
        entries: n.ptrs.map_values(|p: KeyPtr| entry_of(p)),
    }
}

/// Bytes that `n` entries take up in an interior node, header included.
pub open spec fn interior_used(n: nat) -> int {
    101 + 33 * n as int
}

/// An entry on disk.
pub open spec fn entry_bytes(e: InteriorEntry) -> Seq<u8> {
    key_bytes(e.key) + enc64(e.blockptr) + enc64(e.generation)
}

/// The entries of an interior node on disk.
pub open spec fn entry_block(entries: Seq<InteriorEntry>) -> Seq<u8>
    decreases entries.len(),
{
    if entries.len() == 0 {
        Seq::empty()
    } else {
        entry_block(entries.drop_last()) + entry_bytes(entries.last())
    }
}

/// An interior node of `size` bytes behind its checksum field.
pub open spec fn interior_body(n: InteriorV, size: int) -> Seq<u8> {
    header_bytes(
        n.metadata_uuid,
        n.bytenr,
        n.flags,
        n.chunk_tree_uuid,
        n.generation,
        n.owner,
        n.entries.len() as u32,
        n.level,
    ) + entry_block(n.entries) + zeros((size - interior_used(n.entries.len())) as nat)
}

/// The block that an interior node is written as.
#[verifier::opaque]
pub open spec fn emit_interior(n: InteriorV, node_size: u32) -> Outcome<Seq<u8>> {
    if interior_used(n.entries.len()) > node_size {
        Err(Fault::FilesystemFull)
    } else {
        Ok(sealed(n.csum_type, interior_body(n, node_size as int)))
    }
}

/// How many of the leading entries sort before `key`.
pub open spec fn entry_slot(entries: Seq<InteriorEntry>, key: Key) -> int
    decreases entries.len(),
{
    if entries.len() == 0 {
        0
    } else {
        let p = entry_slot(entries.drop_last(), key);
        if p < entries.len() - 1 || entries.last().key.ord() >= key.ord() {
            p
        } else {
            entries.len() as int
        }
    }
}

proof fn entry_slot_unique(entries: Seq<InteriorEntry>, key: Key, p: int)
    requires
        0 <= p <= entries.len(),
        forall|j: int| 0 <= j < p ==> (#[trigger] entries[j]).key.ord() < key.ord(),
        p < entries.len() ==> entries[p].key.ord() >= key.ord(),
    ensures
        entry_slot(entries, key) == p,
    decreases entries.len(),
{
    if entries.len() > 0 {
        if p == entries.len() {
            entry_slot_unique(entries.drop_last(), key, p - 1);
            assert(entries[p - 1].key.ord() < key.ord());
        } else {
            entry_slot_unique(entries.drop_last(), key, p);
        }
    }
}

/// The first entry that points at `ptr`, or the number of entries.
pub open spec fn entry_pointing_at(entries: Seq<InteriorEntry>, ptr: u64) -> int
    decreases entries.len(),
{
    if entries.len() == 0 {
        0
    } else {
        let p = entry_pointing_at(entries.drop_last(), ptr);
        if p < entries.len() - 1 || entries.last().blockptr == ptr {
            p
        } else {
            entries.len() as int
        }
    }
}

impl InteriorNode {
    /// An empty interior node at `level`.
    pub fn new(
        bytenr: u64,
        generation: u64,
        owner: u64,
        level: u8,
        metadata_uuid: [u8; 16],
        csum_type: CsumType,
    ) -> (r: Result<Self>)
        ensures
            match r {
                Ok(n) => level > 0 && n@ == (InteriorV {
                    bytenr,
                    generation,
                    owner,
                    level,
                    flags: HEADER_FLAG_WRITTEN,
                    metadata_uuid: metadata_uuid@,
                    chunk_tree_uuid: zeros(16),
                    csum_type,
                    entries: Seq::empty(),
                }),
                Err(e) => level == 0 && e@ == Fault::CorruptFs(
                    "interior node level must be greater than 0"@,
                ),
            },
    {
        if level == 0 {
            return Err(LuksError::CorruptFs("interior node level must be greater than 0"));
        }
        let r = InteriorNode {
            bytenr,
            generation,
            owner,
            level,
            flags: HEADER_FLAG_WRITTEN,
            metadata_uuid,
            chunk_tree_uuid: [0u8; 16],
            csum_type,
            entries: Vec::new(),
        };
        assert(r@.chunk_tree_uuid =~= zeros(16));
        Ok(r)
    }

    /// An editable copy of a node above level 0.
    pub fn from_node(node: &Node, csum_type: CsumType) -> (r: Result<Self>)
        ensures
            match r {
                Ok(n) => node@.level != 0 && n@ == interior_of(node@, csum_type),
                Err(e) => node@.level == 0 && e@ == Fault::CorruptFs(
                    "cannot convert leaf to interior node"@,
                ),
            },
    {
        if node.is_leaf() {
            return Err(LuksError::CorruptFs("cannot convert leaf to interior node"));
        }
        let n: usize = node.ptrs.len();
        let mut entries: Vec<InteriorEntry> = Vec::new();
        let mut i: usize = 0;
        while i < n
            invariant
                i <= n,
                n == node.ptrs@.len(),
                entries@ == node.ptrs@.take(i as int).map_values(|p: KeyPtr| entry_of(p)),
            decreases n - i,
        {
            let p = node.ptrs[i];
            entries.push(
                InteriorEntry { key: p.key, blockptr: p.blockptr, generation: p.generation },
            );
            i += 1;
            assert(entries@ =~= node.ptrs@.take(i as int).map_values(|p: KeyPtr| entry_of(p)));
        }
        assert(node.ptrs@.take(n as int) =~= node.ptrs@);
        Ok(
            InteriorNode {
                bytenr: node.bytenr,
                generation: node.generation,
                owner: node.owner,
                level: node.level,
                flags: node.flags,
                metadata_uuid: node.metadata_uuid,
                chunk_tree_uuid: node.chunk_tree_uuid,
                csum_type,
                entries,
            },
        )
    }

    /// Whether the entries fit a node of `node_size` bytes.
    pub fn fits(&self, node_size: u32) -> (r: bool)
        ensures
            r == (interior_used(self@.entries.len()) <= node_size),
    {
        node_size >= 101 && self.entries.len() <= ((node_size - 101) / 33) as usize
    }

    /// Bytes available for new entries.
    pub fn free_space(&self, node_size: u32) -> (r: usize)
        ensures
            r == if interior_used(self@.entries.len()) > node_size {
                0
            } else {
                node_size - interior_used(self@.entries.len())
            },
    {
        if self.fits(node_size) {
            node_size as usize - (HEADER_SIZE + self.entries.len() * KEY_PTR_SIZE)
        } else {
            0
        }
    }

    /// Insert a child pointer in key order, in front of one with the same key.
    pub fn insert_entry(&mut self, key: Key, blockptr: u64, generation: u64, node_size: u32) -> (r:
        Result<()>)
        ensures
            match r {
                Ok(()) => {
                    &&& interior_used(old(self)@.entries.len() + 1) <= node_size
                    &&& final(self)@ == (InteriorV {
                        entries: old(self)@.entries.insert(
                            entry_slot(old(self)@.entries, key),
                            InteriorEntry { key, blockptr, generation },
                        ),
                        ..old(self)@
                    })
                },
                Err(e) => {
                    &&& interior_used(old(self)@.entries.len() + 1) > node_size
                    &&& e@ == Fault::FilesystemFull
                    &&& final(self)@ == old(self)@
                },
            },
    {
        if KEY_PTR_SIZE > self.free_space(node_size) {
            return Err(LuksError::FilesystemFull);
        }
        let mut pos: usize = 0;
        while pos < self.entries.len() && self.entries[pos].key.before(&key)
            invariant
                pos <= self.entries@.len(),
                forall|j: int| 0 <= j < pos ==> (#[trigger] self.entries@[j]).key.ord() < key.ord(),
            decreases self.entries@.len() - pos,
        {
            pos += 1;
        }
        proof {
            entry_slot_unique(self.entries@, key, pos as int);
        }
        self.entries.insert(pos, InteriorEntry { key, blockptr, generation });
        Ok(())
    }

    /// Redirect the first entry that points at `old_blockptr`, then restore key
    /// order.
    pub fn update_entry_by_blockptr(
        &mut self,
        old_blockptr: u64,
        new_key: Option<Key>,
        new_blockptr: u64,
        new_generation: u64,
    ) -> (r: Result<()>)
        ensures
            ({
                let i = entry_pointing_at(old(self)@.entries, old_blockptr);
                match r {
                    Ok(()) => {
                        &&& i < old(self)@.entries.len()
                        &&& final(self)@ == (InteriorV {
                            entries: stable_sort(
                                old(self)@.entries.update(
                                    i,
                                    InteriorEntry {
                                        key: match new_key {
                                            Some(k) => k,
                                            None => old(self)@.entries[i].key,
                                        },
                                        blockptr: new_blockptr,
                                        generation: new_generation,
                                    },
                                ),
                            ),
                            ..old(self)@
                        })
                    },
                    Err(e) => {
                        &&& i == old(self)@.entries.len()
                        &&& e@ == Fault::NotFound("interior node block pointer not found"@)
                        &&& final(self)@ == old(self)@
                    },
                }
            }),
    {
        let n: usize = self.entries.len();
        let mut i: usize = 0;
        let ghost all = self.entries@;
        assert(all.take(0) =~= Seq::<InteriorEntry>::empty());
        while i < n && self.entries[i].blockptr != old_blockptr
            invariant
                i <= n,
                n == self.entries@.len(),
                all == self.entries@,
                entry_pointing_at(all.take(i as int), old_blockptr) == i,
                forall|j: int| 0 <= j < i ==> (#[trigger] all[j]).blockptr != old_blockptr,
            decreases n - i,
        {
            assert(all.take(i + 1).drop_last() =~= all.take(i as int));
            i += 1;
        }
        proof {
            entry_pointing_prefix(all, old_blockptr, i as int);
        }
        if i == n {
            return Err(LuksError::NotFound(text("interior node block pointer not found")));
        }
        let key = match new_key {
            Some(k) => k,
            None => self.entries[i].key,
        };
        self.entries.set(
            i,
            InteriorEntry { key, blockptr: new_blockptr, generation: new_generation },
        );
        sort_ranked(&mut self.entries);
        Ok(())
    }

    /// Split into a left node, a right node at `right_bytenr` and the lowest key
    /// of the right one.
    pub fn split(&self, right_bytenr: u64) -> (r: Result<(InteriorNode, InteriorNode, Key)>)
        ensures
            match r {
                Ok((left, right, pivot)) => {
                    let mid = self@.entries.len() as int / 2;
                    &&& self@.entries.len() >= 2
                    &&& left@ == (InteriorV { entries: self@.entries.take(mid), ..self@ })
                    &&& right@ == (InteriorV {
                        bytenr: right_bytenr,
                        entries: self@.entries.skip(mid),
                        ..self@
                    })
                    &&& pivot == self@.entries[mid].key
                },
                Err(e) => self@.entries.len() < 2 && e@ == Fault::CorruptFs(
                    "cannot split interior node with fewer than 2 entries"@,
                ),
            },
    {
        let n: usize = self.entries.len();
        if n < 2 {
            return Err(
                LuksError::CorruptFs("cannot split interior node with fewer than 2 entries"),
            );
        }
        let mid: usize = n / 2;
        let mut left_entries: Vec<InteriorEntry> = Vec::new();
        let mut right_entries: Vec<InteriorEntry> = Vec::new();
        let mut i: usize = 0;
        while i < n
            invariant
                i <= n,
                mid == n / 2,
                n == self.entries@.len(),
                left_entries@ == self.entries@.subrange(0, if i < mid { i as int } else { mid as int }),
                right_entries@ == self.entries@.subrange(mid as int, if i < mid { mid as int } else { i as int }),
            decreases n - i,
        {
            if i < mid {
                left_entries.push(self.entries[i]);
            } else {
                right_entries.push(self.entries[i]);
            }
            i += 1;
            assert(left_entries@ =~= self.entries@.subrange(0, if i < mid { i as int } else { mid as int }));
            assert(right_entries@ =~= self.entries@.subrange(mid as int, if i < mid { mid as int } else { i as int }));
        }
        let pivot = self.entries[mid].key;
        assert(left_entries@ =~= self@.entries.take(mid as int));
        assert(right_entries@ =~= self@.entries.skip(mid as int));
        let left = InteriorNode {
            bytenr: self.bytenr,
            generation: self.generation,
            owner: self.owner,
            level: self.level,
            flags: self.flags,
            metadata_uuid: self.metadata_uuid,
            chunk_tree_uuid: self.chunk_tree_uuid,
            csum_type: self.csum_type,
            entries: left_entries,
        };
        let right = InteriorNode {
            bytenr: right_bytenr,
            generation: self.generation,
            owner: self.owner,
            level: self.level,
            flags: self.flags,
            metadata_uuid: self.metadata_uuid,
            chunk_tree_uuid: self.chunk_tree_uuid,
            csum_type: self.csum_type,
            entries: right_entries,
        };
        Ok((left, right, pivot))
    }

    /// Serialize into the on-disk block.
    pub fn emit(&self, node_size: u32) -> (r: Result<Vec<u8>>)
        ensures
            match r {
                Ok(raw) => emit_interior(self@, node_size) == Ok::<Seq<u8>, Fault>(raw@),
                Err(e) => emit_interior(self@, node_size) == Err::<Seq<u8>, Fault>(e@),
            },
    {
        reveal(emit_interior);
        if !self.fits(node_size) {
            return Err(LuksError::FilesystemFull);
        }
        let n: usize = self.entries.len();
        let mut body: Vec<u8> = Vec::new();
        append_header(
            &mut body,
            &self.metadata_uuid,
            self.bytenr,
            self.flags,
            &self.chunk_tree_uuid,
            self.generation,
            self.owner,
            n as u32,
            self.level,
        );
        let ghost head = body@;
        let mut i: usize = 0;
        assert(self.entries@.take(0) =~= Seq::<InteriorEntry>::empty());
        assert(body@ =~= head + entry_block(self.entries@.take(0)));
        while i < n
            invariant
                i <= n,
                n == self.entries@.len(),
                body@ == head + entry_block(self.entries@.take(i as int)),
            decreases n - i,
        {
            let e = self.entries[i];
            append_key(&mut body, &e.key);
            append_u64(&mut body, e.blockptr);
            append_u64(&mut body, e.generation);
            proof {
                assert(self.entries@.take(i + 1).drop_last() =~= self.entries@.take(i as int));
                assert(body@ =~= head + entry_block(self.entries@.take(i + 1)));
            }
            i += 1;
        }
        assert(self.entries@.take(n as int) =~= self.entries@);
        append_zeros(&mut body, self.free_space(node_size));
        assert(body@ =~= interior_body(self@, node_size as int));
        Ok(seal(self.csum_type, &body))
    }
}

proof fn entry_pointing_prefix(entries: Seq<InteriorEntry>, ptr: u64, i: int)
    requires
        0 <= i <= entries.len(),
        entry_pointing_at(entries.take(i), ptr) == i,
        i < entries.len() ==> entries[i].blockptr == ptr,
    ensures
        entry_pointing_at(entries, ptr) == i,
    decreases entries.len() - i,
{
    if i == entries.len() {
        assert(entries.take(i) =~= entries);
    } else {
        entry_pointing_settled(entries, ptr, i, entries.len() as int);
        assert(entries.take(entries.len() as int) =~= entries);
    }
}

proof fn entry_pointing_settled(entries: Seq<InteriorEntry>, ptr: u64, i: int, j: int)
    requires
        0 <= i < j <= entries.len(),
        entry_pointing_at(entries.take(i), ptr) == i,
        entries[i].blockptr == ptr,
    ensures
        entry_pointing_at(entries.take(j), ptr) == i,
    decreases j - i,
{
    assert(entries.take(j).drop_last() =~= entries.take(j - 1));
    if j > i + 1 {
        entry_pointing_settled(entries, ptr, i, j - 1);
    }
}

} // verus!
