//! The items of the extent tree: block groups, data extents and tree blocks.

use vstd::prelude::*;

use crate::bytes::{append_u32, append_u64, copy_bytes, copy_range, enc32, enc64, get_u32, get_u64, le32, le64};
use crate::error::{prefixed, Fault, LuksError, Outcome, Result};
use crate::fs::btrfs::chunk::{
    BLOCK_GROUP_DATA, BLOCK_GROUP_DUP, BLOCK_GROUP_METADATA, BLOCK_GROUP_RAID0, BLOCK_GROUP_RAID1,
    BLOCK_GROUP_RAID10, BLOCK_GROUP_RAID5, BLOCK_GROUP_RAID6, BLOCK_GROUP_SYSTEM,
};
use crate::fs::btrfs::tree::{
    Key, BLOCK_GROUP_ITEM_KEY, EXTENT_DATA_REF_KEY, EXTENT_ITEM_KEY, METADATA_ITEM_KEY,
    SHARED_BLOCK_REF_KEY, SHARED_DATA_REF_KEY, TREE_BLOCK_REF_KEY,
};
use crate::sort::Ranked;
use crate::text::join3;

verus! {

/// Flag of a data extent.
pub const EXTENT_FLAG_DATA: u64 = 1;
/// Flag of a tree block.
pub const EXTENT_FLAG_TREE_BLOCK: u64 = 2;
/// Flag of a tree block with full back references.
pub const BLOCK_FLAG_FULL_BACKREF: u64 = 256;

/// A back reference held inside an extent item.
#[derive(Debug, PartialEq, Eq)]
pub enum InlineBackref {
    /// A tree block of the tree `root`.
    TreeBlock { root: u64 },
    /// A file extent.
    ExtentData { root: u64, objectid: u64, offset: u64, count: u32 },
    /// A tree block shared through `parent`.
    SharedBlock { parent: u64 },
    /// A file extent shared through `parent`.
    SharedData { parent: u64, count: u32 },
    /// Any other kind: the rest of the item.
    Other { item_type: u8, data: Vec<u8> },
}

/// The mathematical view of an [`InlineBackref`].
pub enum BackrefV {
    TreeBlock { root: u64 },
    ExtentData { root: u64, objectid: u64, offset: u64, count: u32 },
    SharedBlock { parent: u64 },
    SharedData { parent: u64, count: u32 },
    Other { item_type: u8, data: Seq<u8> },
}

impl View for InlineBackref {
    type V = BackrefV;

    open spec fn view(&self) -> BackrefV {
        match *self {
            InlineBackref::TreeBlock { root } => BackrefV::TreeBlock { root },
            InlineBackref::ExtentData { root, objectid, offset, count } => BackrefV::ExtentData {
                root,
                objectid,
                offset,
                count,
            },
            InlineBackref::SharedBlock { parent } => BackrefV::SharedBlock { parent },
            InlineBackref::SharedData { parent, count } => BackrefV::SharedData { parent, count },
            InlineBackref::Other { item_type, data } => BackrefV::Other { item_type, data: data@ },
        }
    }
}

impl Clone for InlineBackref {
    fn clone(&self) -> (r: Self)
        ensures
            r@ == self@,
    {
        match self {
            InlineBackref::TreeBlock { root } => InlineBackref::TreeBlock { root: *root },
            InlineBackref::ExtentData { root, objectid, offset, count } =>
                InlineBackref::ExtentData {
                root: *root,
                objectid: *objectid,
                offset: *offset,
                count: *count,
            },
            InlineBackref::SharedBlock { parent } => InlineBackref::SharedBlock { parent: *parent },
            InlineBackref::SharedData { parent, count } => InlineBackref::SharedData {
                parent: *parent,
                count: *count,
            },
            InlineBackref::Other { item_type, data } => InlineBackref::Other {
                item_type: *item_type,
                data: copy_bytes(data.as_slice()),
            },
        }
    }
}

/// The views of a sequence of back references.
pub open spec fn backrefs_of(s: Seq<InlineBackref>) -> Seq<BackrefV> {
    s.map_values(|b: InlineBackref| b@)
}

fn copy_backrefs(v: &Vec<InlineBackref>) -> (r: Vec<InlineBackref>)
    ensures
        backrefs_of(r@) == backrefs_of(v@),
{
    let mut r: Vec<InlineBackref> = Vec::new();
    let mut i: usize = 0;
    while i < v.len()
        invariant
            i <= v@.len(),
            backrefs_of(r@) == backrefs_of(v@).take(i as int),
        decreases v@.len() - i,
    {
        let ghost before = r@;
        r.push(v[i].clone());
        proof {
            assert(backrefs_of(r@) =~= backrefs_of(before).push(v@[i as int]@));
            assert(backrefs_of(r@) =~= backrefs_of(v@).take(i + 1));
        }
        i += 1;
    }
    assert(backrefs_of(r@) =~= backrefs_of(v@));
    r
}

/// A block group: a contiguous range of logical space.
#[derive(Debug, Clone, Copy, PartialEq, Eq, Structural)]
pub struct BlockGroupItem {
    /// First logical address.
    pub start: u64,
    /// Length in bytes.
    pub length: u64,
    /// Bytes in use.
    pub used: u64,
    /// Chunk objectid.
    pub chunk_objectid: u64,
    /// Type and profile flags.
    pub flags: u64,
}

/// The payload of a block group item.
pub open spec fn block_group_bytes(bg: BlockGroupItem) -> Seq<u8> {
    enc64(bg.used) + enc64(bg.chunk_objectid) + enc64(bg.flags)
}

/// What decoding a block group item gives.
pub open spec fn parse_block_group(key: Key, data: Seq<u8>) -> Outcome<BlockGroupItem> {
    if key.item_type != BLOCK_GROUP_ITEM_KEY {
        Err(Fault::CorruptFs("not a block group item key"@))
    } else if data.len() < 24 {
        Err(Fault::CorruptFs("btrfs block group item truncated"@))
    } else {
        Ok(
            BlockGroupItem {
                start: key.objectid,
                length: key.offset,
                used: le64(data, 0),
                chunk_objectid: le64(data, 8),
                flags: le64(data, 16),
            },
        )
    }
}

/// The type part of a profile name.
pub open spec fn type_text(flags: u64) -> Seq<char> {
    let d = flags & BLOCK_GROUP_DATA != 0;
    let s = flags & BLOCK_GROUP_SYSTEM != 0;
    let m = flags & BLOCK_GROUP_METADATA != 0;
    if d && s && m {
        "DATA|SYSTEM|METADATA"@
    } else if d && s {
        "DATA|SYSTEM"@
    } else if d && m {
        "DATA|METADATA"@
    } else if s && m {
        "SYSTEM|METADATA"@
    } else if d {
        "DATA"@
    } else if s {
        "SYSTEM"@
    } else if m {
        "METADATA"@
    } else {
        "UNKNOWN"@
    }
}

/// The redundancy part of a profile name.
pub open spec fn redundancy_text(flags: u64) -> Seq<char> {
    if flags & BLOCK_GROUP_DUP != 0 {
        "DUP"@
    } else if flags & BLOCK_GROUP_RAID0 != 0 {
        "RAID0"@
    } else if flags & BLOCK_GROUP_RAID1 != 0 {
        "RAID1"@
    } else if flags & BLOCK_GROUP_RAID10 != 0 {
        "RAID10"@
    } else {
        "single"@
    }
}

impl BlockGroupItem {
    /// Decode a block group item.
    pub fn parse(key: &Key, data: &[u8]) -> (r: Result<Self>)
        ensures
            match r {
                Ok(b) => parse_block_group(*key, data@) == Ok::<BlockGroupItem, Fault>(b),
                Err(e) => parse_block_group(*key, data@) == Err::<BlockGroupItem, Fault>(e@),
            },
    {
        if key.item_type != BLOCK_GROUP_ITEM_KEY {
            return Err(LuksError::CorruptFs("not a block group item key"));
        }
        if data.len() < 24 {
            return Err(LuksError::CorruptFs("btrfs block group item truncated"));
        }
        Ok(
            BlockGroupItem {
                start: key.objectid,
                length: key.offset,
                used: get_u64(data, 0),
                chunk_objectid: get_u64(data, 8),
                flags: get_u64(data, 16),
            },
        )
    }

    /// Whether the group holds data.
    pub fn is_data(&self) -> (r: bool)
        ensures
            r == (self.flags & BLOCK_GROUP_DATA != 0),
    {
        self.flags & BLOCK_GROUP_DATA != 0
    }

    /// Whether the group holds the chunk tree.
    pub fn is_system(&self) -> (r: bool)
        ensures
            r == (self.flags & BLOCK_GROUP_SYSTEM != 0),
    {
        self.flags & BLOCK_GROUP_SYSTEM != 0
    }

    /// Whether the group holds tree blocks.
    pub fn is_metadata(&self) -> (r: bool)
        ensures
            r == (self.flags & BLOCK_GROUP_METADATA != 0),
    {
        self.flags & BLOCK_GROUP_METADATA != 0
    }

    /// Whether the group keeps two copies on one device.
    pub fn is_dup(&self) -> (r: bool)
        ensures
            r == (self.flags & BLOCK_GROUP_DUP != 0),
    {
        self.flags & BLOCK_GROUP_DUP != 0
    }

    /// Whether the group keeps a single copy.
    pub fn is_single(&self) -> (r: bool)
        ensures
            r == (self.flags & (BLOCK_GROUP_DUP | BLOCK_GROUP_RAID0 | BLOCK_GROUP_RAID1
                | BLOCK_GROUP_RAID10 | BLOCK_GROUP_RAID5 | BLOCK_GROUP_RAID6) == 0),
    {
        self.flags & (BLOCK_GROUP_DUP | BLOCK_GROUP_RAID0 | BLOCK_GROUP_RAID1 | BLOCK_GROUP_RAID10
            | BLOCK_GROUP_RAID5 | BLOCK_GROUP_RAID6) == 0
    }

    /// The key and payload of this group's item.
    pub fn emit(&self) -> (r: (Key, Vec<u8>))
        ensures
            r.0 == (Key {
                objectid: self.start,
                item_type: BLOCK_GROUP_ITEM_KEY,
                offset: self.length,
            }),
            r.1@ == block_group_bytes(*self),
    {
        let mut v: Vec<u8> = Vec::new();
        append_u64(&mut v, self.used);
        append_u64(&mut v, self.chunk_objectid);
        append_u64(&mut v, self.flags);
        assert(v@ =~= block_group_bytes(*self));
        (Key::new(self.start, BLOCK_GROUP_ITEM_KEY, self.length), v)
    }

    /// The flags as text, such as `METADATA|DUP`.
    pub fn profile_name(&self) -> (r: String)
        ensures
            r@ == type_text(self.flags) + "|"@ + redundancy_text(self.flags),
    {
        let d: bool = self.is_data();
        let s: bool = self.is_system();
        let m: bool = self.is_metadata();
        let kind = if d && s && m {
            "DATA|SYSTEM|METADATA"
        } else if d && s {
            "DATA|SYSTEM"
        } else if d && m {
            "DATA|METADATA"
        } else if s && m {
            "SYSTEM|METADATA"
        } else if d {
            "DATA"
        } else if s {
            "SYSTEM"
        } else if m {
            "METADATA"
        } else {
            "UNKNOWN"
        };
        let profile = if self.is_dup() {
            "DUP"
        } else if self.flags & BLOCK_GROUP_RAID0 != 0 {
            "RAID0"
        } else if self.flags & BLOCK_GROUP_RAID1 != 0 {
            "RAID1"
        } else if self.flags & BLOCK_GROUP_RAID10 != 0 {
            "RAID10"
        } else {
            "single"
        };
        join3(kind, "|", profile)
    }
}

/// A block group item reads back as the group that was emitted.
pub proof fn block_group_round_trip(bg: BlockGroupItem)
    ensures
        parse_block_group(
            Key { objectid: bg.start, item_type: BLOCK_GROUP_ITEM_KEY, offset: bg.length },
            block_group_bytes(bg),
        ) == Ok::<BlockGroupItem, Fault>(bg),
{
    broadcast use crate::bytes::group_enc_len;

    let s = block_group_bytes(bg);
    assert(s.subrange(0, 8) =~= enc64(bg.used));
    assert(s.subrange(8, 16) =~= enc64(bg.chunk_objectid));
    assert(s.subrange(16, 24) =~= enc64(bg.flags));
    crate::bytes::le64_of_enc(s, 0, bg.used);
    crate::bytes::le64_of_enc(s, 8, bg.chunk_objectid);
    crate::bytes::le64_of_enc(s, 16, bg.flags);
}

/// The back references in `data`.
pub open spec fn parse_backrefs(data: Seq<u8>) -> Outcome<Seq<BackrefV>>
    decreases data.len(),
{
    if data.len() == 0 {
        Ok(Seq::empty())
    } else if data[0] == TREE_BLOCK_REF_KEY {
        if data.len() < 9 {
            Err(Fault::CorruptFs("tree block ref truncated"@))
        } else {
            prefixed(seq![BackrefV::TreeBlock { root: le64(data, 1) }], parse_backrefs(data.skip(9)))
        }
    } else if data[0] == EXTENT_DATA_REF_KEY {
        if data.len() < 29 {
            Err(Fault::CorruptFs("extent data ref truncated"@))
        } else {
            prefixed(
                seq![
                    BackrefV::ExtentData {
                        root: le64(data, 1),
                        objectid: le64(data, 9),
                        offset: le64(data, 17),
                        count: le32(data, 25),
                    },
                ],
                parse_backrefs(data.skip(29)),
            )
        }
    } else if data[0] == SHARED_BLOCK_REF_KEY {
        if data.len() < 9 {
            Err(Fault::CorruptFs("shared block ref truncated"@))
        } else {
            prefixed(
                seq![BackrefV::SharedBlock { parent: le64(data, 1) }],
                parse_backrefs(data.skip(9)),
            )
        }
    } else if data[0] == SHARED_DATA_REF_KEY {
        if data.len() < 13 {
            Err(Fault::CorruptFs("shared data ref truncated"@))
        } else {
            prefixed(
                seq![BackrefV::SharedData { parent: le64(data, 1), count: le32(data, 9) }],
                parse_backrefs(data.skip(13)),
            )
        }
    } else {
        Ok(seq![BackrefV::Other { item_type: data[0], data: data.skip(1) }])
    }
}

proof fn prefixed_step(acc: Seq<BackrefV>, b: BackrefV, r: Outcome<Seq<BackrefV>>)
    ensures
        prefixed(acc, prefixed(seq![b], r)) == prefixed(acc.push(b), r),
{
    match r {
        Ok(s) => {
            assert(acc + (seq![b] + s) =~= acc.push(b) + s);
        },
        Err(_) => {},
    }
}

/// Decode the back references behind the first `at` bytes of an item.
pub fn parse_inline_backrefs(data: &[u8], at: usize) -> (r: Result<Vec<InlineBackref>>)
    requires
        at <= data@.len(),
    ensures
        match r {
            Ok(v) => parse_backrefs(data@.skip(at as int)) == Ok::<Seq<BackrefV>, Fault>(
                backrefs_of(v@),
            ),
            Err(e) => parse_backrefs(data@.skip(at as int)) == Err::<Seq<BackrefV>, Fault>(e@),
        },
{
    let n: usize = data.len();
    let mut out: Vec<InlineBackref> = Vec::new();
    let mut pos: usize = at;
    let ghost whole = parse_backrefs(data@.skip(at as int));
    proof {
        assert(backrefs_of(out@) =~= Seq::<BackrefV>::empty());
        match whole {
            Ok(s) => {
                assert(Seq::<BackrefV>::empty() + s =~= s);
            },
            Err(_) => {},
        }
    }
    while pos < n
        invariant
            pos <= n,
            n == data@.len(),
            whole == parse_backrefs(data@.skip(at as int)),
            whole == prefixed(backrefs_of(out@), parse_backrefs(data@.skip(pos as int))),
        decreases n - pos,
    {
        let left: usize = n - pos;
        let kind: u8 = data[pos];
        let ghost d = data@.skip(pos as int);
        let ghost before = out@;
        proof {
            lemma_fields_at(data@, pos as int);
        }
        if kind == TREE_BLOCK_REF_KEY {
            if left < 9 {
                return Err(LuksError::CorruptFs("tree block ref truncated"));
            }
            out.push(InlineBackref::TreeBlock { root: get_u64(data, pos + 1) });
            pos += 9;
        } else if kind == EXTENT_DATA_REF_KEY {
            if left < 29 {
                return Err(LuksError::CorruptFs("extent data ref truncated"));
            }
            out.push(
                InlineBackref::ExtentData {
                    root: get_u64(data, pos + 1),
                    objectid: get_u64(data, pos + 9),
                    offset: get_u64(data, pos + 17),
                    count: get_u32(data, pos + 25),
                },
            );
            pos += 29;
        } else if kind == SHARED_BLOCK_REF_KEY {
            if left < 9 {
                return Err(LuksError::CorruptFs("shared block ref truncated"));
            }
            out.push(InlineBackref::SharedBlock { parent: get_u64(data, pos + 1) });
            pos += 9;
        } else if kind == SHARED_DATA_REF_KEY {
            if left < 13 {
                return Err(LuksError::CorruptFs("shared data ref truncated"));
            }
            out.push(
                InlineBackref::SharedData {
                    parent: get_u64(data, pos + 1),
                    count: get_u32(data, pos + 9),
                },
            );
            pos += 13;
        } else {
            let rest = copy_range(data, pos + 1, n);
            assert(rest@ =~= d.skip(1));
            out.push(InlineBackref::Other { item_type: kind, data: rest });
            proof {
                assert(backrefs_of(out@) =~= backrefs_of(before).push(out@.last()@));
                assert(backrefs_of(out@) =~= backrefs_of(before) + seq![out@.last()@]);
            }
            return Ok(out);
        }
        proof {
            let b = out@.last()@;
            assert(backrefs_of(out@) =~= backrefs_of(before).push(b));
            assert(data@.skip(pos as int) =~= d.skip(pos as int - (n - d.len())));
            prefixed_step(backrefs_of(before), b, parse_backrefs(data@.skip(pos as int)));
        }
    }
    proof {
        assert(data@.skip(pos as int) =~= Seq::<u8>::empty());
        assert(backrefs_of(out@) + Seq::<BackrefV>::empty() =~= backrefs_of(out@));
    }
    Ok(out)
}

/// Fields of a suffix are the fields of the whole further on.
proof fn lemma_fields_at(s: Seq<u8>, p: int)
    requires
        0 <= p <= s.len(),
    ensures
        forall|o: int|
            0 <= o && p + o + 8 <= s.len() ==> #[trigger] le64(s.skip(p), o) == le64(s, p + o),
        forall|o: int|
            0 <= o && p + o + 4 <= s.len() ==> #[trigger] le32(s.skip(p), o) == le32(s, p + o),
{
    reveal(le64);
    reveal(le32);
}

/// A decoded extent item.
#[derive(Debug, PartialEq, Eq)]
pub struct ExtentItem {
    pub bytenr: u64,
    pub length: u64,
    pub refs: u64,
    pub generation: u64,
    pub flags: u64,
    pub backrefs: Vec<InlineBackref>,
}

/// The payload of an extent item for a data extent with one reference.
pub open spec fn data_extent_bytes(generation: u64, root: u64, objectid: u64, offset: u64) -> Seq<
    u8,
> {
    enc64(1) + enc64(generation) + enc64(EXTENT_FLAG_DATA) + seq![EXTENT_DATA_REF_KEY] + enc64(root)
        + enc64(objectid) + enc64(offset) + enc32(1)
}

/// Whether `x` is the extent item in `data`, decoded.
pub open spec fn extent_item_matches(key: Key, data: Seq<u8>, x: ExtentItem) -> bool {
    &&& x.bytenr == key.objectid
    &&& x.length == key.offset
    &&& x.refs == le64(data, 0)
    &&& x.generation == le64(data, 8)
    &&& x.flags == le64(data, 16)
    &&& parse_backrefs(data.skip(24)) == Ok::<Seq<BackrefV>, Fault>(backrefs_of(x.backrefs@))
}

/// Why an extent item is refused.
pub open spec fn extent_item_fault(key: Key, data: Seq<u8>) -> Option<Fault> {
    if key.item_type != EXTENT_ITEM_KEY {
        Some(Fault::CorruptFs("not an extent item key"@))
    } else if data.len() < 24 {
        Some(Fault::CorruptFs("btrfs extent item truncated"@))
    } else {
        match parse_backrefs(data.skip(24)) {
            Ok(_) => None,
            Err(e) => Some(e),
        }
    }
}

impl ExtentItem {
    /// Decode an extent item.
    pub fn parse(key: &Key, data: &[u8]) -> (r: Result<Self>)
        ensures
            match r {
                Ok(x) => extent_item_fault(*key, data@) is None && extent_item_matches(
                    *key,
                    data@,
                    x,
                ),
                Err(e) => extent_item_fault(*key, data@) == Some(e@),
            },
    {
        if key.item_type != EXTENT_ITEM_KEY {
            return Err(LuksError::CorruptFs("not an extent item key"));
        }
        if data.len() < 24 {
            return Err(LuksError::CorruptFs("btrfs extent item truncated"));
        }
        let backrefs = parse_inline_backrefs(data, 24)?;
        Ok(
            ExtentItem {
                bytenr: key.objectid,
                length: key.offset,
                refs: get_u64(data, 0),
                generation: get_u64(data, 8),
                flags: get_u64(data, 16),
                backrefs,
            },
        )
    }

    /// The key and payload for a newly allocated data extent.
    pub fn emit_data_extent(
        disk_bytenr: u64,
        disk_num_bytes: u64,
        generation: u64,
        root: u64,
        objectid: u64,
        offset: u64,
    ) -> (r: (Key, Vec<u8>))
        ensures
            r.0 == (Key {
                objectid: disk_bytenr,
                item_type: EXTENT_ITEM_KEY,
                offset: disk_num_bytes,
            }),
            r.1@ == data_extent_bytes(generation, root, objectid, offset),
    {
        let mut v: Vec<u8> = Vec::new();
        append_u64(&mut v, 1);
        append_u64(&mut v, generation);
        append_u64(&mut v, EXTENT_FLAG_DATA);
        v.push(EXTENT_DATA_REF_KEY);
        append_u64(&mut v, root);
        append_u64(&mut v, objectid);
        append_u64(&mut v, offset);
        append_u32(&mut v, 1);
        assert(v@ =~= data_extent_bytes(generation, root, objectid, offset));
        (Key::new(disk_bytenr, EXTENT_ITEM_KEY, disk_num_bytes), v)
    }
}

/// A decoded metadata item: a tree block.
#[derive(Debug, PartialEq, Eq)]
pub struct MetadataItem {
    pub bytenr: u64,
    /// Tree level, 0 for a leaf.
    pub level: u8,
    pub refs: u64,
    pub generation: u64,
    pub flags: u64,
    pub backrefs: Vec<InlineBackref>,
}

/// The payload of a metadata item for a tree block with one reference.
pub open spec fn tree_block_bytes(generation: u64, owner_root: u64) -> Seq<u8> {
    enc64(1) + enc64(generation) + enc64(EXTENT_FLAG_TREE_BLOCK) + seq![TREE_BLOCK_REF_KEY]
        + enc64(owner_root)
}

/// Whether `x` is the metadata item in `data`, decoded.
pub open spec fn metadata_item_matches(key: Key, data: Seq<u8>, x: MetadataItem) -> bool {
    &&& x.bytenr == key.objectid
    &&& x.level == key.offset as u8
    &&& x.refs == le64(data, 0)
    &&& x.generation == le64(data, 8)
    &&& x.flags == le64(data, 16)
    &&& parse_backrefs(data.skip(24)) == Ok::<Seq<BackrefV>, Fault>(backrefs_of(x.backrefs@))
}

/// Why a metadata item is refused.
pub open spec fn metadata_item_fault(key: Key, data: Seq<u8>) -> Option<Fault> {
    if key.item_type != METADATA_ITEM_KEY {
        Some(Fault::CorruptFs("not a metadata item key"@))
    } else if data.len() < 24 {
        Some(Fault::CorruptFs("btrfs metadata item truncated"@))
    } else {
        match parse_backrefs(data.skip(24)) {
            Ok(_) => None,
            Err(e) => Some(e),
        }
    }
}

impl MetadataItem {
    /// Decode a metadata item.
    pub fn parse(key: &Key, data: &[u8]) -> (r: Result<Self>)
        ensures
            match r {
                Ok(x) => metadata_item_fault(*key, data@) is None && metadata_item_matches(
                    *key,
                    data@,
                    x,
                ),
                Err(e) => metadata_item_fault(*key, data@) == Some(e@),
            },
    {
        if key.item_type != METADATA_ITEM_KEY {
            return Err(LuksError::CorruptFs("not a metadata item key"));
        }
        if data.len() < 24 {
            return Err(LuksError::CorruptFs("btrfs metadata item truncated"));
        }
        let backrefs = parse_inline_backrefs(data, 24)?;
        Ok(
            MetadataItem {
                bytenr: key.objectid,
                level: key.offset as u8,
                refs: get_u64(data, 0),
                generation: get_u64(data, 8),
                flags: get_u64(data, 16),
                backrefs,
            },
        )
    }

    /// The key and payload for a newly allocated tree block.
    pub fn emit_tree_block(bytenr: u64, level: u8, generation: u64, owner_root: u64) -> (r: (
        Key,
        Vec<u8>,
    ))
        ensures
            r.0 == (Key {
                objectid: bytenr,
                item_type: METADATA_ITEM_KEY,
                offset: level as u64,
            }),
            r.1@ == tree_block_bytes(generation, owner_root),
    {
        let mut v: Vec<u8> = Vec::new();
        append_u64(&mut v, 1);
        append_u64(&mut v, generation);
        append_u64(&mut v, EXTENT_FLAG_TREE_BLOCK);
        v.push(TREE_BLOCK_REF_KEY);
        append_u64(&mut v, owner_root);
        assert(v@ =~= tree_block_bytes(generation, owner_root));
        (Key::new(bytenr, METADATA_ITEM_KEY, level as u64), v)
    }
}

/// An allocated extent, data or tree block.
#[derive(Debug, PartialEq, Eq)]
pub struct AllocatedExtent {
    pub bytenr: u64,
    pub length: u64,
    pub refs: u64,
    pub generation: u64,
    pub is_data: bool,
    pub is_tree_block: bool,
    pub level: u8,
    pub backrefs: Vec<InlineBackref>,
}

/// The mathematical view of an [`AllocatedExtent`].
pub struct AllocV {
    pub bytenr: u64,
    pub length: u64,
    pub refs: u64,
    pub generation: u64,
    pub is_data: bool,
    pub is_tree_block: bool,
    pub level: u8,
    pub backrefs: Seq<BackrefV>,
}

impl View for AllocatedExtent {
    type V = AllocV;

    open spec fn view(&self) -> AllocV {
        AllocV {
            bytenr: self.bytenr,
            length: self.length,
            refs: self.refs,
            generation: self.generation,
            is_data: self.is_data,
            is_tree_block: self.is_tree_block,
            level: self.level,
            backrefs: backrefs_of(self.backrefs@),
        }
    }
}

impl Clone for AllocatedExtent {
    fn clone(&self) -> (r: Self)
        ensures
            r@ == self@,
    {
        AllocatedExtent {
            bytenr: self.bytenr,
            length: self.length,
            refs: self.refs,
            generation: self.generation,
            is_data: self.is_data,
            is_tree_block: self.is_tree_block,
            level: self.level,
            backrefs: copy_backrefs(&self.backrefs),
        }
    }
}

impl Ranked for AllocatedExtent {
    open spec fn rank(&self) -> int {
        self.bytenr as int
    }

    fn rank_le(&self, other: &Self) -> (r: bool) {
        self.bytenr <= other.bytenr
    }
}

impl Ranked for AllocV {
    open spec fn rank(&self) -> int {
        self.bytenr as int
    }

    fn rank_le(&self, other: &Self) -> (r: bool) {
        self.bytenr <= other.bytenr
    }
}

impl Ranked for BlockGroupItem {
    open spec fn rank(&self) -> int {
        self.start as int
    }

    fn rank_le(&self, other: &Self) -> (r: bool) {
        self.start <= other.start
    }
}

/// The views of a sequence of extents.
pub open spec fn allocs_of(s: Seq<AllocatedExtent>) -> Seq<AllocV> {
    s.map_values(|e: AllocatedExtent| e@)
}

/// The extent tree, decoded.
#[derive(Debug, PartialEq, Eq)]
pub struct ExtentTree {
    pub block_groups: Vec<BlockGroupItem>,
    pub extents: Vec<AllocatedExtent>,
}

/// The mathematical view of an [`ExtentTree`].
pub struct ExtentTreeV {
    pub block_groups: Seq<BlockGroupItem>,
    pub extents: Seq<AllocV>,
}

impl View for ExtentTree {
    type V = ExtentTreeV;

    open spec fn view(&self) -> ExtentTreeV {
        ExtentTreeV { block_groups: self.block_groups@, extents: allocs_of(self.extents@) }
    }
}

/// Bytes of all extents.
pub open spec fn extent_sum(s: Seq<AllocV>) -> int
    decreases s.len(),
{
    if s.len() == 0 {
        0
    } else {
        extent_sum(s.drop_last()) + s.last().length
    }
}

/// `x`, capped at the largest 64-bit number.
pub open spec fn cap64(x: int) -> u64 {
    if x > u64::MAX {
        u64::MAX
    } else {
        x as u64
    }
}

proof fn extent_sum_bound(s: Seq<AllocV>)
    ensures
        extent_sum(s) >= 0,
    decreases s.len(),
{
    if s.len() > 0 {
        extent_sum_bound(s.drop_last());
    }
}

impl ExtentTree {
    /// Bytes in use over all extents.
    pub fn total_allocated_bytes(&self) -> (r: u64)
        ensures
            r == cap64(extent_sum(self@.extents)),
    {
        let ghost all = self@.extents;
        let mut sum: u64 = 0;
        let mut i: usize = 0;
        assert(all.take(0) =~= Seq::<AllocV>::empty());
        while i < self.extents.len()
            invariant
                i <= self.extents@.len(),
                all == allocs_of(self.extents@),
                sum == cap64(extent_sum(all.take(i as int))),
            decreases self.extents@.len() - i,
        {
            proof {
                assert(all.take(i + 1).drop_last() =~= all.take(i as int));
                assert(all[i as int] == self.extents@[i as int]@);
                extent_sum_bound(all.take(i as int));
            }
            sum = sum.saturating_add(self.extents[i].length);
            i += 1;
        }
        assert(all.take(self.extents@.len() as int) =~= all);
        sum
    }
}

} // verus!
