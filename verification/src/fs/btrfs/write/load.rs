//! Reading the allocation state of a volume.

use vstd::prelude::*;

use crate::bytes::le64;
use crate::device::ReadAt;
use crate::error::{text, tracks, Fault, LuksError, Outcome, Result};
use crate::fs::btrfs::blocks::BlockMap;
use crate::fs::btrfs::chunk::{ChunkMap, ChunkV};
use crate::fs::btrfs::roots::root_of;
use crate::fs::btrfs::search::{collect_range, range_items, yields};
use crate::fs::btrfs::tree::{
    items_of, Item, Key, LeafItem, BLOCK_GROUP_ITEM_KEY, EXTENT_ITEM_KEY, EXTENT_TREE_OBJECTID,
    FREE_SPACE_EXTENT_KEY, FREE_SPACE_TREE_OBJECTID, METADATA_ITEM_KEY,
};
use crate::fs::btrfs::volume::{Btrfs, FsV};
use crate::fs::btrfs::write::cow::agrees;
use crate::fs::btrfs::write::exclude::{compute_sb_exclusions, sb_exclusions};
use crate::fs::btrfs::write::extent_tree::{
    allocs_of, extent_item_fault, metadata_item_fault, parse_backrefs, parse_block_group, AllocV,
    AllocatedExtent, BlockGroupItem, ExtentItem, ExtentTree, ExtentTreeV, MetadataItem,
    EXTENT_FLAG_DATA, EXTENT_FLAG_TREE_BLOCK,
};
use crate::fs::btrfs::write::space::{exclude, space_of, BgV, FreeRange, FreeSpaceMap};
use crate::sort::{sort_ranked, stable_sort, stable_sort_map};

verus! {

/// The lowest key.
pub open spec fn first_key() -> Key {
    Key { objectid: 0, item_type: 0, offset: 0 }
}

/// The highest key.
pub open spec fn final_key() -> Key {
    Key { objectid: u64::MAX, item_type: 255, offset: u64::MAX }
}

/// All items of the tree with root node `root` on the device.
pub open spec fn all_items(fs: FsV, root: u64) -> Outcome<Seq<Item>> {
    range_items(fs, Map::empty(), root, first_key(), final_key())
}

/// Read all items of the tree with root node `root`.
pub fn walk_tree<D: ReadAt>(fs: &Btrfs<D>, root: u64) -> (r: Result<Vec<LeafItem>>)
    ensures
        yields(fs.steady(), r, all_items(fs@, root)),
{
    let none = BlockMap::new();
    let lo = Key::new(0, 0, 0);
    let hi = Key::new(u64::MAX, 255, u64::MAX);
    collect_range(fs, &none, root, &lo, &hi)
}

/// The extent that an extent item stands for.
pub open spec fn data_alloc(it: Item) -> AllocV {
    AllocV {
        bytenr: it.key.objectid,
        length: it.key.offset,
        refs: le64(it.data, 0),
        generation: le64(it.data, 8),
        is_data: le64(it.data, 16) & EXTENT_FLAG_DATA != 0,
        is_tree_block: le64(it.data, 16) & EXTENT_FLAG_TREE_BLOCK != 0,
        level: 0,
        backrefs: parse_backrefs(it.data.skip(24))->Ok_0,
    }
}

/// The extent that a metadata item stands for.
pub open spec fn block_alloc(it: Item, node_size: u32) -> AllocV {
    AllocV {
        bytenr: it.key.objectid,
        length: node_size as u64,
        refs: le64(it.data, 0),
        generation: le64(it.data, 8),
        is_data: false,
        is_tree_block: true,
        level: it.key.offset as u8,
        backrefs: parse_backrefs(it.data.skip(24))->Ok_0,
    }
}

/// The block groups and extents among `items`, in the order of the items.
pub open spec fn decoded(items: Seq<Item>, node_size: u32) -> Outcome<ExtentTreeV>
    decreases items.len(),
{
    if items.len() == 0 {
        Ok(ExtentTreeV { block_groups: Seq::empty(), extents: Seq::empty() })
    } else {
        match decoded(items.drop_last(), node_size) {
            Err(e) => Err(e),
            Ok(t) => {
                let it = items.last();
                if it.key.item_type == BLOCK_GROUP_ITEM_KEY {
                    match parse_block_group(it.key, it.data) {
                        Err(e) => Err(e),
                        Ok(g) => Ok(ExtentTreeV { block_groups: t.block_groups.push(g), ..t }),
                    }
                } else if it.key.item_type == EXTENT_ITEM_KEY {
                    match extent_item_fault(it.key, it.data) {
                        Some(e) => Err(e),
                        None => Ok(ExtentTreeV { extents: t.extents.push(data_alloc(it)), ..t }),
                    }
                } else if it.key.item_type == METADATA_ITEM_KEY {
                    match metadata_item_fault(it.key, it.data) {
                        Some(e) => Err(e),
                        None => Ok(
                            ExtentTreeV { extents: t.extents.push(block_alloc(it, node_size)), ..t },
                        ),
                    }
                } else {
                    Ok(t)
                }
            },
        }
    }
}

proof fn decoded_err(items: Seq<Item>, node_size: u32, n: int)
    requires
        0 <= n <= items.len(),
        decoded(items.take(n), node_size) is Err,
    ensures
        decoded(items, node_size) == decoded(items.take(n), node_size),
    decreases items.len() - n,
{
    if n == items.len() {
        assert(items.take(n) =~= items);
    } else {
        assert(items.take(n + 1).drop_last() =~= items.take(n));
        decoded_err(items, node_size, n + 1);
    }
}

/// The extent tree of a volume, sorted by address.
#[verifier::opaque]
pub open spec fn extent_tree_of(fs: FsV) -> Outcome<ExtentTreeV> {
    if !fs.sb.skinny() {
        Err(
            Fault::UnsupportedFsFeature(
                "non-skinny metadata (legacy EXTENT_ITEM tree blocks) — this filesystem can be read but not written"@,
            ),
        )
    } else {
        match root_of(fs, EXTENT_TREE_OBJECTID) {
            Err(e) => Err(e),
            Ok(root) => match all_items(fs, root.bytenr) {
                Err(e) => Err(e),
                Ok(items) => match decoded(items, fs.sb.node_size) {
                    Err(e) => Err(e),
                    Ok(t) => Ok(
                        ExtentTreeV {
                            block_groups: stable_sort(t.block_groups),
                            extents: stable_sort(t.extents),
                        },
                    ),
                },
            },
        }
    }
}

/// The allocator that an extent tree and the chunks give.
pub open spec fn allocator_of(t: ExtentTreeV, chunks: Seq<ChunkV>) -> Outcome<Seq<BgV>> {
    match space_of(t.block_groups, t.extents) {
        Err(e) => Err(e),
        Ok(m) => Ok(exclude(m, sb_exclusions(chunks))),
    }
}

/// The allocator of a volume.
pub open spec fn space_on(fs: FsV) -> Outcome<Seq<BgV>> {
    match extent_tree_of(fs) {
        Err(e) => Err(e),
        Ok(t) => allocator_of(t, fs.chunks),
    }
}

fn push_alloc(v: &mut Vec<AllocatedExtent>, e: AllocatedExtent)
    ensures
        allocs_of(final(v)@) == allocs_of(old(v)@).push(e@),
{
    let ghost before = v@;
    v.push(e);
    assert(allocs_of(v@) =~= allocs_of(before).push(e@));
}

/// Decode the items of an extent tree.
fn decode_extents(items: &Vec<LeafItem>, node_size: u32) -> (r: Result<ExtentTree>)
    ensures
        match r {
            Ok(t) => decoded(items_of(items@), node_size) == Ok::<ExtentTreeV, Fault>(t@),
            Err(e) => decoded(items_of(items@), node_size) == Err::<ExtentTreeV, Fault>(e@),
        },
{
    let ghost all = items_of(items@);
    let n: usize = items.len();
    let mut groups: Vec<BlockGroupItem> = Vec::new();
    let mut extents: Vec<AllocatedExtent> = Vec::new();
    let mut i: usize = 0;
    assert(all.take(0) =~= Seq::<Item>::empty());
    assert(allocs_of(extents@) =~= Seq::<AllocV>::empty());
    while i < n
        invariant
            i <= n,
            n == items@.len(),
            all == items_of(items@),
            decoded(all.take(i as int), node_size) == Ok::<ExtentTreeV, Fault>(
                ExtentTreeV { block_groups: groups@, extents: allocs_of(extents@) },
            ),
        decreases n - i,
    {
        let it = &items[i];
        let ghost m = it@;
        proof {
            assert(all.take(i + 1).drop_last() =~= all.take(i as int));
            assert(all.take(i + 1).last() == m);
            if decoded(all.take(i + 1), node_size) is Err {
                decoded_err(all, node_size, i + 1);
            }
        }
        let data = it.data.as_slice();
        if it.key.item_type == BLOCK_GROUP_ITEM_KEY {
            let g = BlockGroupItem::parse(&it.key, data)?;
            groups.push(g);
        } else if it.key.item_type == EXTENT_ITEM_KEY {
            let x = ExtentItem::parse(&it.key, data)?;
            let e = AllocatedExtent {
                bytenr: x.bytenr,
                length: x.length,
                refs: x.refs,
                generation: x.generation,
                is_data: x.flags & EXTENT_FLAG_DATA != 0,
                is_tree_block: x.flags & EXTENT_FLAG_TREE_BLOCK != 0,
                level: 0,
                backrefs: x.backrefs,
            };
            assert(e@ == data_alloc(m));
            push_alloc(&mut extents, e);
        } else if it.key.item_type == METADATA_ITEM_KEY {
            let x = MetadataItem::parse(&it.key, data)?;
            let e = AllocatedExtent {
                bytenr: x.bytenr,
                length: node_size as u64,
                refs: x.refs,
                generation: x.generation,
                is_data: false,
                is_tree_block: true,
                level: x.level,
                backrefs: x.backrefs,
            };
            assert(e@ == block_alloc(m, node_size));
            push_alloc(&mut extents, e);
        }
        i += 1;
    }
    assert(all.take(n as int) =~= all);
    Ok(ExtentTree { block_groups: groups, extents })
}

impl ExtentTree {
    /// Read the extent tree of a volume.
    pub fn read<D: ReadAt>(fs: &Btrfs<D>) -> (r: Result<Self>)
        ensures
            tracks(fs.steady(), r, extent_tree_of(fs@)),
    {
        reveal(extent_tree_of);
        if !fs.superblock().has_skinny_metadata() {
            return Err(
                LuksError::UnsupportedFsFeature(
                    text(
                        "non-skinny metadata (legacy EXTENT_ITEM tree blocks) — this filesystem can be read but not written",
                    ),
                ),
            );
        }
        let root = fs.tree_root(EXTENT_TREE_OBJECTID)?;
        let items = walk_tree(fs, root.bytenr)?;
        let mut t = decode_extents(&items, fs.superblock().node_size)?;
        proof {
            let f = |e: AllocatedExtent| e@;
            stable_sort_map(t.extents@, f);
        }
        sort_ranked(&mut t.block_groups);
        sort_ranked(&mut t.extents);
        Ok(t)
    }
}

impl FreeSpaceMap {
    /// Derive the map from the extent tree, and withhold the superblock mirrors.
    pub fn from_extent_tree_and_chunk_map(extent_tree: &ExtentTree, chunk_map: &ChunkMap) -> (r:
        Result<Self>)
        ensures
            match r {
                Ok(m) => allocator_of(extent_tree@, chunk_map@) == Ok::<Seq<BgV>, Fault>(m@),
                Err(e) => allocator_of(extent_tree@, chunk_map@) == Err::<Seq<BgV>, Fault>(e@),
            },
    {
        let mut map = FreeSpaceMap::from_extent_tree(extent_tree)?;
        let exclusions = compute_sb_exclusions(chunk_map);
        map.exclude_ranges(exclusions.as_slice());
        Ok(map)
    }

    /// The map of a volume.
    pub fn read<D: ReadAt>(fs: &Btrfs<D>) -> (r: Result<Self>)
        ensures
            tracks(fs.steady(), r, space_on(fs@)),
    {
        let t = ExtentTree::read(fs)?;
        FreeSpaceMap::from_extent_tree_and_chunk_map(&t, fs.chunk_map())
    }
}

/// The free ranges that free-space items list.
pub open spec fn listed_free(items: Seq<Item>) -> Seq<FreeRange>
    decreases items.len(),
{
    if items.len() == 0 {
        Seq::empty()
    } else {
        let it = items.last();
        if it.key.item_type == FREE_SPACE_EXTENT_KEY {
            listed_free(items.drop_last()).push(
                FreeRange { start: it.key.objectid, length: it.key.offset },
            )
        } else {
            listed_free(items.drop_last())
        }
    }
}

/// The free ranges of the free-space tree, if there is one.
pub open spec fn free_space_tree(fs: FsV) -> Outcome<Option<Seq<FreeRange>>> {
    match root_of(fs, FREE_SPACE_TREE_OBJECTID) {
        Err(Fault::CorruptFs(_)) => Ok(None),
        Err(e) => Err(e),
        Ok(root) => match all_items(fs, root.bytenr) {
            Err(e) => Err(e),
            Ok(items) => Ok(Some(stable_sort(listed_free(items)))),
        },
    }
}

/// Read the free-space tree.
///
/// `Ok(None)` means that the volume has none.
pub fn read_free_space_tree<D: ReadAt>(fs: &Btrfs<D>) -> (r: Result<Option<Vec<FreeRange>>>)
    ensures
        agrees(
            fs.steady(),
            r,
            free_space_tree(fs@),
            |x: Option<Vec<FreeRange>>|
                match x {
                    Some(v) => Some(v@),
                    None => None,
                },
        ),
{
    let root = match fs.tree_root(FREE_SPACE_TREE_OBJECTID) {
        Ok(root) => root,
        Err(LuksError::CorruptFs(_)) => {
            return Ok(None);
        },
        Err(e) => {
            return Err(e);
        },
    };
    let items = walk_tree(fs, root.bytenr)?;
    let ghost all = items_of(items@);
    let n: usize = items.len();
    let mut v: Vec<FreeRange> = Vec::new();
    let mut i: usize = 0;
    assert(all.take(0) =~= Seq::<Item>::empty());
    while i < n
        invariant
            i <= n,
            n == items@.len(),
            all == items_of(items@),
            v@ == listed_free(all.take(i as int)),
        decreases n - i,
    {
        proof {
            assert(all.take(i + 1).drop_last() =~= all.take(i as int));
            assert(all.take(i + 1).last() == items@[i as int]@);
        }
        if items[i].key.item_type == FREE_SPACE_EXTENT_KEY {
            v.push(FreeRange { start: items[i].key.objectid, length: items[i].key.offset });
        }
        i += 1;
    }
    assert(all.take(n as int) =~= all);
    sort_ranked(&mut v);
    Ok(Some(v))
}

} // verus!
