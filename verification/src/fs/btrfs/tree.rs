//! B-tree keys and the on-disk form of tree nodes.

use vstd::prelude::*;

use crate::bytes::{
    append_zeros, bytes_eq, copy_bytes, copy_range, enc32, get_array, get_u32, get_u64, le32, le64,
    zeros,
};
use crate::error::{Fault, LuksError, Outcome, Result};
use crate::fs::btrfs::crc32c::{crc32c, crc_of};
use crate::fs::btrfs::sha256::{sha256, sha256_len, sha256_of};

verus! {

pub const ROOT_TREE_OBJECTID: u64 = 1;
pub const EXTENT_TREE_OBJECTID: u64 = 2;
pub const CHUNK_TREE_OBJECTID: u64 = 3;
pub const DEV_TREE_OBJECTID: u64 = 4;
pub const FS_TREE_OBJECTID: u64 = 5;
pub const CSUM_TREE_OBJECTID: u64 = 7;
pub const FREE_SPACE_TREE_OBJECTID: u64 = 10;
pub const DEV_ITEMS_OBJECTID: u64 = 1;
pub const FIRST_CHUNK_TREE_OBJECTID: u64 = 256;
/// The objectid of every checksum item (-10).
pub const EXTENT_CSUM_OBJECTID: u64 = 0xFFFF_FFFF_FFFF_FFF6;

pub const INODE_ITEM_KEY: u8 = 1;
pub const INODE_REF_KEY: u8 = 12;
pub const DIR_ITEM_KEY: u8 = 84;
pub const DIR_INDEX_KEY: u8 = 96;
pub const EXTENT_DATA_KEY: u8 = 108;
pub const EXTENT_CSUM_KEY: u8 = 128;
pub const ROOT_ITEM_KEY: u8 = 132;
pub const EXTENT_ITEM_KEY: u8 = 168;
pub const METADATA_ITEM_KEY: u8 = 169;
pub const TREE_BLOCK_REF_KEY: u8 = 176;
pub const EXTENT_DATA_REF_KEY: u8 = 178;
pub const SHARED_BLOCK_REF_KEY: u8 = 182;
pub const SHARED_DATA_REF_KEY: u8 = 184;
pub const BLOCK_GROUP_ITEM_KEY: u8 = 192;
pub const FREE_SPACE_INFO_KEY: u8 = 198;
pub const FREE_SPACE_EXTENT_KEY: u8 = 199;
pub const FREE_SPACE_BITMAP_KEY: u8 = 200;
pub const DEV_EXTENT_KEY: u8 = 204;
pub const DEV_ITEM_KEY: u8 = 216;
pub const CHUNK_ITEM_KEY: u8 = 228;

/// Bytes of a node header.
pub const HEADER_SIZE: usize = 101;
/// Bytes of an item descriptor in a leaf.
pub const ITEM_SIZE: usize = 25;
/// Bytes of a child pointer in an interior node.
pub const KEY_PTR_SIZE: usize = 33;
/// The deepest tree that is descended.
pub const MAX_TREE_DEPTH: u8 = 16;

/// The key of an item: trees are ordered by objectid, then type, then offset.
#[derive(Debug, Clone, Copy, PartialEq, Eq, Structural)]
pub struct Key {
    pub objectid: u64,
    pub item_type: u8,
    pub offset: u64,
}

impl Key {
    /// The position of this key in the order of keys.
    pub open spec fn ord(self) -> int {
        self.objectid * 0x100_0000_0000_0000_0000 + self.item_type * 0x1_0000_0000_0000_0000
            + self.offset
    }

    /// Make a key.
    pub fn new(objectid: u64, item_type: u8, offset: u64) -> (r: Self)
        ensures
            r == (Key { objectid, item_type, offset }),
    {
        Key { objectid, item_type, offset }
    }

    /// Whether this key sorts strictly before `other`.
    pub fn before(&self, other: &Key) -> (r: bool)
        ensures
            r == (self.ord() < other.ord()),
    {
        if self.objectid != other.objectid {
            self.objectid < other.objectid
        } else if self.item_type != other.item_type {
            self.item_type < other.item_type
        } else {
            self.offset < other.offset
        }
    }
}

/// Two keys at one position are one key.
pub proof fn key_ord_injective(a: Key, b: Key)
    ensures
        (a.ord() == b.ord()) == (a == b),
{
    if a.objectid < b.objectid {
        assert(a.ord() < b.ord());
    } else if b.objectid < a.objectid {
        assert(b.ord() < a.ord());
    } else if a.item_type < b.item_type {
        assert(a.ord() < b.ord());
    } else if b.item_type < a.item_type {
        assert(b.ord() < a.ord());
    }
}

/// What an item type is called in messages.
pub open spec fn item_label(t: u8) -> Seq<char> {
    if t == INODE_ITEM_KEY {
        "inode item"@
    } else if t == INODE_REF_KEY {
        "inode ref"@
    } else if t == DIR_ITEM_KEY || t == DIR_INDEX_KEY {
        "directory entry"@
    } else if t == EXTENT_DATA_KEY {
        "file extent"@
    } else if t == EXTENT_CSUM_KEY {
        "checksum item"@
    } else if t == ROOT_ITEM_KEY {
        "root item"@
    } else {
        "tree item"@
    }
}

/// What an item type is called in messages.
pub fn item_type_name(t: u8) -> (r: &'static str)
    ensures
        r@ == item_label(t),
{
    if t == INODE_ITEM_KEY {
        "inode item"
    } else if t == INODE_REF_KEY {
        "inode ref"
    } else if t == DIR_ITEM_KEY || t == DIR_INDEX_KEY {
        "directory entry"
    } else if t == EXTENT_DATA_KEY {
        "file extent"
    } else if t == EXTENT_CSUM_KEY {
        "checksum item"
    } else if t == ROOT_ITEM_KEY {
        "root item"
    } else {
        "tree item"
    }
}

/// A child pointer: where a subtree lives and the lowest key in it.
#[derive(Debug, Clone, Copy, PartialEq, Eq, Structural)]
pub struct KeyPtr {
    pub key: Key,
    pub blockptr: u64,
    pub generation: u64,
}

/// A `(key, data)` item of a leaf.
#[derive(Debug, PartialEq, Eq)]
pub struct LeafItem {
    pub key: Key,
    pub data: Vec<u8>,
}

/// The mathematical view of a [`LeafItem`].
pub struct Item {
    pub key: Key,
    pub data: Seq<u8>,
}

impl View for LeafItem {
    type V = Item;

    open spec fn view(&self) -> Item {
        Item { key: self.key, data: self.data@ }
    }
}

impl Clone for LeafItem {
    fn clone(&self) -> (r: Self)
        ensures
            r@ == self@,
    {
        LeafItem { key: self.key, data: copy_bytes(self.data.as_slice()) }
    }
}

/// The views of a sequence of items.
pub open spec fn items_of(s: Seq<LeafItem>) -> Seq<Item> {
    s.map_values(|x: LeafItem| x@)
}

/// Which checksum algorithm a filesystem uses.
#[derive(Debug, Clone, Copy, PartialEq, Eq, Structural)]
pub enum CsumType {
    Crc32c,
    Sha256,
}

/// The 32-byte checksum field over `data`.
#[verifier::opaque]
pub open spec fn csum_field(t: CsumType, data: Seq<u8>) -> Seq<u8> {
    match t {
        CsumType::Crc32c => enc32(crc_of(data)) + zeros(28),
        CsumType::Sha256 => sha256_of(data),
    }
}

/// A checksum field has 32 bytes.
pub proof fn csum_field_len(t: CsumType, data: Seq<u8>)
    ensures
        csum_field(t, data).len() == 32,
{
    broadcast use crate::bytes::group_enc_len;

    reveal(csum_field);
    sha256_len(data);
}

impl CsumType {
    /// Bytes of one checksum.
    pub open spec fn width(self) -> nat {
        match self {
            CsumType::Crc32c => 4,
            CsumType::Sha256 => 32,
        }
    }

    /// The algorithm that a superblock names by `code`.
    pub open spec fn of_code(code: u16) -> Option<CsumType> {
        if code == 0 {
            Some(CsumType::Crc32c)
        } else if code == 2 {
            Some(CsumType::Sha256)
        } else {
            None
        }
    }

    /// The algorithm that a superblock names by `code`.
    pub fn from_code(code: u16) -> (r: Option<CsumType>)
        ensures
            r == CsumType::of_code(code),
    {
        if code == 0 {
            Some(CsumType::Crc32c)
        } else if code == 2 {
            Some(CsumType::Sha256)
        } else {
            None
        }
    }

    /// Bytes of one checksum.
    pub fn size(&self) -> (r: usize)
        ensures
            r == self.width(),
    {
        match self {
            CsumType::Crc32c => 4,
            CsumType::Sha256 => 32,
        }
    }

    /// The 32-byte checksum field over `data`.
    pub fn calculate(&self, data: &[u8]) -> (r: Vec<u8>)
        ensures
            r@ == csum_field(*self, data@),
    {
        reveal(csum_field);
        match self {
            CsumType::Crc32c => {
                let mut v = crate::bytes::le_vec_u32(crc32c(data));
                append_zeros(&mut v, 28);
                v
            },
            CsumType::Sha256 => sha256(data),
        }
    }
}

/// The mathematical view of a [`Node`].
pub struct NodeV {
    pub bytenr: u64,
    pub generation: u64,
    pub owner: u64,
    pub flags: u64,
    pub level: u8,
    pub metadata_uuid: Seq<u8>,
    pub chunk_tree_uuid: Seq<u8>,
    pub items: Seq<Item>,
    pub ptrs: Seq<KeyPtr>,
}

impl NodeV {
    /// How many entries the node has.
    pub open spec fn nr_items(self) -> nat {
        if self.level == 0 {
            self.items.len()
        } else {
            self.ptrs.len()
        }
    }
}

/// The key stored at offset `o`.
pub open spec fn key_at(raw: Seq<u8>, o: int) -> Key {
    Key { objectid: le64(raw, o), item_type: raw[o + 8], offset: le64(raw, o + 9) }
}

/// Whether the payload of item `i` lies inside the leaf.
pub open spec fn item_in_bounds(raw: Seq<u8>, i: int) -> bool {
    101 + le32(raw, 101 + 25 * i + 17) + le32(raw, 101 + 25 * i + 21) <= raw.len()
}

/// Item `i` of a leaf.
pub open spec fn item_at(raw: Seq<u8>, i: int) -> Item {
    let off = 101 + le32(raw, 101 + 25 * i + 17);
    Item { key: key_at(raw, 101 + 25 * i), data: raw.subrange(off, off + le32(raw, 101 + 25 * i + 21)) }
}

/// Child pointer `i` of an interior node.
pub open spec fn ptr_at(raw: Seq<u8>, i: int) -> KeyPtr {
    KeyPtr {
        key: key_at(raw, 101 + 33 * i),
        blockptr: le64(raw, 101 + 33 * i + 17),
        generation: le64(raw, 101 + 33 * i + 25),
    }
}

/// Whether a header count fits the node it stands in.
pub open spec fn count_fits(raw: Seq<u8>) -> bool {
    101 + (if raw[100] == 0 { 25int } else { 33int }) * le32(raw, 96) <= raw.len()
}

/// Whether every payload of a leaf lies inside it.
pub open spec fn payloads_in_bounds(raw: Seq<u8>) -> bool {
    forall|i: int| 0 <= i < le32(raw, 96) ==> item_in_bounds(raw, i)
}

/// The node that `raw` holds, once checked.
pub open spec fn node_of(raw: Seq<u8>) -> NodeV {
    NodeV {
        bytenr: le64(raw, 48),
        generation: le64(raw, 80),
        owner: le64(raw, 88),
        flags: le64(raw, 56),
        level: raw[100],
        metadata_uuid: raw.subrange(32, 48),
        chunk_tree_uuid: raw.subrange(64, 80),
        items: if raw[100] == 0 {
            Seq::new(le32(raw, 96) as nat, |i: int| item_at(raw, i))
        } else {
            Seq::empty()
        },
        ptrs: if raw[100] == 0 {
            Seq::empty()
        } else {
            Seq::new(le32(raw, 96) as nat, |i: int| ptr_at(raw, i))
        },
    }
}

/// The node stored in `raw`, expected at logical address `bytenr` of the
/// filesystem `uuid`.
#[verifier::opaque]
pub open spec fn parse_node(raw: Seq<u8>, bytenr: u64, t: CsumType, uuid: Seq<u8>) -> Outcome<
    NodeV,
> {
    if raw.len() < 101 {
        Err(Fault::CorruptFs("btrfs node truncated"@))
    } else if raw.subrange(0, 32) != csum_field(t, raw.subrange(32, raw.len() as int)) {
        Err(Fault::CorruptFs("btrfs node checksum mismatch"@))
    } else if le64(raw, 48) != bytenr {
        Err(Fault::CorruptFs("btrfs node at wrong address"@))
    } else if raw.subrange(32, 48) != uuid {
        Err(Fault::CorruptFs("btrfs node belongs to another filesystem"@))
    } else if !count_fits(raw) {
        Err(Fault::CorruptFs("btrfs node item count overruns the node"@))
    } else if raw[100] == 0 && !payloads_in_bounds(raw) {
        Err(Fault::CorruptFs("btrfs item data out of bounds"@))
    } else {
        Ok(node_of(raw))
    }
}

/// A tree node read from disk and checked.
#[derive(Debug)]
pub struct Node {
    pub bytenr: u64,
    pub generation: u64,
    pub owner: u64,
    pub flags: u64,
    pub level: u8,
    pub metadata_uuid: [u8; 16],
    pub chunk_tree_uuid: [u8; 16],
    pub items: Vec<LeafItem>,
    pub ptrs: Vec<KeyPtr>,
}

impl View for Node {
    type V = NodeV;

    open spec fn view(&self) -> NodeV {
        NodeV {
            bytenr: self.bytenr,
            generation: self.generation,
            owner: self.owner,
            flags: self.flags,
            level: self.level,
            metadata_uuid: self.metadata_uuid@,
            chunk_tree_uuid: self.chunk_tree_uuid@,
            items: items_of(self.items@),
            ptrs: self.ptrs@,
        }
    }
}

/// The last child whose key is no higher than `key`, else the first.
pub open spec fn child_index(ptrs: Seq<KeyPtr>, key: Key) -> int
    decreases ptrs.len(),
{
    if ptrs.len() <= 1 || ptrs.last().key.ord() <= key.ord() {
        ptrs.len() - 1
    } else {
        child_index(ptrs.drop_last(), key)
    }
}

/// The child index lies in range.
pub proof fn child_index_range(ptrs: Seq<KeyPtr>, key: Key)
    requires
        ptrs.len() > 0,
    ensures
        0 <= child_index(ptrs, key) < ptrs.len(),
        forall|j: int|
            child_index(ptrs, key) < j < ptrs.len() ==> (#[trigger] ptrs[j]).key.ord() > key.ord(),
        child_index(ptrs, key) > 0 ==> ptrs[child_index(ptrs, key)].key.ord() <= key.ord(),
    decreases ptrs.len(),
{
    if !(ptrs.len() <= 1 || ptrs.last().key.ord() <= key.ord()) {
        child_index_range(ptrs.drop_last(), key);
        assert forall|j: int| child_index(ptrs, key) < j < ptrs.len() implies (
        #[trigger] ptrs[j]).key.ord() > key.ord() by {
            if j < ptrs.len() - 1 {
                assert(ptrs.drop_last()[j] == ptrs[j]);
            }
        }
    }
}

impl Node {
    /// Whether the node is a leaf.
    pub fn is_leaf(&self) -> (r: bool)
        ensures
            r == (self@.level == 0),
    {
        self.level == 0
    }

    /// How many entries the node has.
    pub fn nr_items(&self) -> (r: usize)
        ensures
            r == self@.nr_items(),
    {
        if self.level == 0 {
            self.items.len()
        } else {
            self.ptrs.len()
        }
    }

    /// The child that a search for `key` descends into.
    pub fn child_for(&self, key: &Key) -> (r: Result<usize>)
        ensures
            match r {
                Ok(i) => self@.ptrs.len() > 0 && i == child_index(self@.ptrs, *key),
                Err(e) => self@.ptrs.len() == 0 && e@ == Fault::CorruptFs(
                    "btrfs node has no items"@,
                ),
            },
    {
        let n: usize = self.ptrs.len();
        if n == 0 {
            return Err(LuksError::CorruptFs("btrfs node has no items"));
        }
        let mut i: usize = n - 1;
        assert(self.ptrs@.take(n as int) =~= self.ptrs@);
        while i > 0 && key.before(&self.ptrs[i].key)
            invariant
                i < n,
                n == self.ptrs@.len(),
                child_index(self.ptrs@, *key) == child_index(self.ptrs@.take(i + 1), *key),
            decreases i,
        {
            assert(self.ptrs@.take(i + 1).drop_last() =~= self.ptrs@.take(i as int));
            i -= 1;
        }
        Ok(i)
    }

    /// Check and decode the node in `raw`.
    pub fn parse(raw: &[u8], bytenr: u64, csum_type: CsumType, metadata_uuid: &[u8; 16]) -> (r: Result<
        Self,
    >)
        ensures
            match r {
                Ok(n) => parse_node(raw@, bytenr, csum_type, metadata_uuid@) == Ok::<NodeV, Fault>(
                    n@,
                ),
                Err(e) => parse_node(raw@, bytenr, csum_type, metadata_uuid@) == Err::<
                    NodeV,
                    Fault,
                >(e@),
            },
    {
        reveal(parse_node);
        let n: usize = raw.len();
        if n < HEADER_SIZE {
            return Err(LuksError::CorruptFs("btrfs node truncated"));
        }
        let want = copy_range(raw, 0, 32);
        let body = copy_range(raw, 32, n);
        let have = csum_type.calculate(body.as_slice());
        if !bytes_eq(want.as_slice(), have.as_slice()) {
            return Err(LuksError::CorruptFs("btrfs node checksum mismatch"));
        }
        if get_u64(raw, 48) != bytenr {
            return Err(LuksError::CorruptFs("btrfs node at wrong address"));
        }
        let fsid = get_array::<16>(raw, 32);
        if !bytes_eq(fsid.as_slice(), metadata_uuid.as_slice()) {
            return Err(LuksError::CorruptFs("btrfs node belongs to another filesystem"));
        }
        let level: u8 = raw[100];
        let nr: u32 = get_u32(raw, 96);
        let room: usize = if level == 0 {
            (n - HEADER_SIZE) / ITEM_SIZE
        } else {
            (n - HEADER_SIZE) / KEY_PTR_SIZE
        };
        if room < nr as usize {
            return Err(LuksError::CorruptFs("btrfs node item count overruns the node"));
        }
        let mut items: Vec<LeafItem> = Vec::new();
        let mut ptrs: Vec<KeyPtr> = Vec::new();
        if level == 0 {
            let mut i: usize = 0;
            while i < nr as usize
                invariant
                    i <= nr,
                    n == raw@.len(),
                    n >= HEADER_SIZE,
                    nr == le32(raw@, 96),
                    101 + 25 * nr <= n,
                    items_of(items@) == Seq::new(i as nat, |k: int| item_at(raw@, k)),
                    items@.len() == i,
                    forall|k: int| 0 <= k < i ==> item_in_bounds(raw@, k),
                    parse_node(raw@, bytenr, csum_type, metadata_uuid@) == if !payloads_in_bounds(
                        raw@,
                    ) {
                        Err(Fault::CorruptFs("btrfs item data out of bounds"@))
                    } else {
                        Ok(node_of(raw@))
                    },
                decreases nr - i,
            {
                let base: usize = HEADER_SIZE + i * ITEM_SIZE;
                let off: u32 = get_u32(raw, base + 17);
                let len: u32 = get_u32(raw, base + 21);
                let room: usize = n - HEADER_SIZE;
                if off as usize > room || len as usize > room - off as usize {
                    assert(!item_in_bounds(raw@, i as int));
                    return Err(LuksError::CorruptFs("btrfs item data out of bounds"));
                }
                let key = Key {
                    objectid: get_u64(raw, base),
                    item_type: raw[base + 8],
                    offset: get_u64(raw, base + 9),
                };
                let start: usize = HEADER_SIZE + off as usize;
                let data = copy_range(raw, start, start + len as usize);
                let ghost before = items@;
                items.push(LeafItem { key, data });
                proof {
                    assert(item_in_bounds(raw@, i as int));
                    assert(items@[i as int]@ == item_at(raw@, i as int));
                    assert(items_of(items@) =~= items_of(before).push(items@[i as int]@));
                    assert(items_of(items@) =~= Seq::new((i + 1) as nat, |k: int| item_at(raw@, k)));
                }
                i += 1;
            }
        } else {
            let mut i: usize = 0;
            while i < nr as usize
                invariant
                    i <= nr,
                    n == raw@.len(),
                    n >= HEADER_SIZE,
                    nr == le32(raw@, 96),
                    101 + 33 * nr <= n,
                    ptrs@ == Seq::new(i as nat, |k: int| ptr_at(raw@, k)),
                decreases nr - i,
            {
                let base: usize = HEADER_SIZE + i * KEY_PTR_SIZE;
                let key = Key {
                    objectid: get_u64(raw, base),
                    item_type: raw[base + 8],
                    offset: get_u64(raw, base + 9),
                };
                let blockptr: u64 = get_u64(raw, base + 17);
                let generation: u64 = get_u64(raw, base + 25);
                ptrs.push(KeyPtr { key, blockptr, generation });
                i += 1;
                assert(ptrs@ =~= Seq::new(i as nat, |k: int| ptr_at(raw@, k)));
            }
        }
        let node = Node {
            bytenr,
            generation: get_u64(raw, 80),
            owner: get_u64(raw, 88),
            flags: get_u64(raw, 56),
            level,
            metadata_uuid: fsid,
            chunk_tree_uuid: get_array::<16>(raw, 64),
            items,
            ptrs,
        };
        proof {
            assert(items_of(node.items@) =~= node_of(raw@).items);
            assert(node.ptrs@ =~= node_of(raw@).ptrs);
            assert(node@ == node_of(raw@));
        }
        Ok(node)
    }
}

} // verus!
