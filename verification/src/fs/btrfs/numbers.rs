//! The numbers by which items are told apart, and which superblock counts.

use vstd::prelude::*;

use crate::error::Fault;
use crate::fs::btrfs::superblock::{parse_super, super_at, super_found, CopiesSeen, SuperV};
use crate::fs::btrfs::tree::{
    BLOCK_GROUP_ITEM_KEY, CHUNK_ITEM_KEY, CHUNK_TREE_OBJECTID, CSUM_TREE_OBJECTID, DEV_EXTENT_KEY,
    DEV_ITEMS_OBJECTID, DEV_ITEM_KEY, DEV_TREE_OBJECTID, DIR_INDEX_KEY, DIR_ITEM_KEY,
    EXTENT_CSUM_KEY, EXTENT_CSUM_OBJECTID, EXTENT_DATA_KEY, EXTENT_DATA_REF_KEY, EXTENT_ITEM_KEY,
    EXTENT_TREE_OBJECTID, FIRST_CHUNK_TREE_OBJECTID, FREE_SPACE_BITMAP_KEY, FREE_SPACE_EXTENT_KEY,
    FREE_SPACE_INFO_KEY, FREE_SPACE_TREE_OBJECTID, FS_TREE_OBJECTID, INODE_ITEM_KEY, INODE_REF_KEY,
    METADATA_ITEM_KEY, ROOT_ITEM_KEY, ROOT_TREE_OBJECTID, SHARED_BLOCK_REF_KEY,
    SHARED_DATA_REF_KEY, TREE_BLOCK_REF_KEY,
};

verus! {

/// The numbers of the trees and of what else has one of its own.
pub proof fn trees_have_numbers()
    ensures
        ROOT_TREE_OBJECTID == 1,
        EXTENT_TREE_OBJECTID == 2,
        CHUNK_TREE_OBJECTID == 3,
        DEV_TREE_OBJECTID == 4,
        FS_TREE_OBJECTID == 5,
        CSUM_TREE_OBJECTID == 7,
        FREE_SPACE_TREE_OBJECTID == 10,
        DEV_ITEMS_OBJECTID == 1,
        FIRST_CHUNK_TREE_OBJECTID == 256,
        EXTENT_CSUM_OBJECTID == 0xFFFF_FFFF_FFFF_FFF6,
{
}

/// The types of items.
pub proof fn items_have_types()
    ensures
        INODE_ITEM_KEY == 1,
        INODE_REF_KEY == 12,
        DIR_ITEM_KEY == 84,
        DIR_INDEX_KEY == 96,
        EXTENT_DATA_KEY == 108,
        EXTENT_CSUM_KEY == 128,
        ROOT_ITEM_KEY == 132,
        EXTENT_ITEM_KEY == 168,
        METADATA_ITEM_KEY == 169,
        TREE_BLOCK_REF_KEY == 176,
        EXTENT_DATA_REF_KEY == 178,
        SHARED_BLOCK_REF_KEY == 182,
        SHARED_DATA_REF_KEY == 184,
        BLOCK_GROUP_ITEM_KEY == 192,
        FREE_SPACE_INFO_KEY == 198,
        FREE_SPACE_EXTENT_KEY == 199,
        FREE_SPACE_BITMAP_KEY == 200,
        DEV_EXTENT_KEY == 204,
        DEV_ITEM_KEY == 216,
        CHUNK_ITEM_KEY == 228,
{
}

/// The superblock copy at a place of a device: 4096 bytes that decode there.
pub open spec fn copy_at(disk: Seq<u8>, at: u64, s: SuperV) -> bool {
    at + 4096 <= disk.len() && parse_super(disk.subrange(at as int, at + 4096), at) == Ok::<
        SuperV,
        Fault,
    >(s)
}

/// The places of superblock copies: 64 KiB, 64 MiB, 256 GiB.
pub open spec fn copy_place(at: u64) -> bool {
    at == 64 * 1024 || at == 64 * 1024 * 1024 || at == 256 * 1024 * 1024 * 1024
}

/// The superblock of a device is a valid copy at one of the three places, and none
/// of the valid ones has a higher generation.
pub proof fn newest_copy_counts(disk: Seq<u8>, at: u64, s: SuperV)
    requires
        copy_place(at),
        copy_at(disk, at, s),
    ensures
        ({
            let seen = CopiesSeen { first: true, second: true, third: true };
            super_found(disk, seen) matches Some(found) && {
                &&& found.generation >= s.generation
                &&& exists|place: u64| copy_place(place) && #[trigger] copy_at(disk, place, found)
            }
        }),
{
    let seen = CopiesSeen { first: true, second: true, third: true };
    let found = super_found(disk, seen)->Some_0;
    let a = (64 * 1024) as u64;
    let b = (64 * 1024 * 1024) as u64;
    let c = (256 * 1024 * 1024 * 1024) as u64;
    assert(super_at(disk, at, true) == Some(s));
    if super_at(disk, a, true) == Some(found) {
        assert(copy_at(disk, a, found));
    } else if super_at(disk, b, true) == Some(found) {
        assert(copy_at(disk, b, found));
    } else {
        assert(super_at(disk, c, true) == Some(found));
        assert(copy_at(disk, c, found));
    }
}

/// Of copies of the same generation the first counts.
pub proof fn first_of_equals_counts(disk: Seq<u8>, s: SuperV)
    requires
        copy_at(disk, 0x1_0000, s),
        forall|at: u64, x: SuperV|
            copy_place(at) && #[trigger] copy_at(disk, at, x) ==> x.generation <= s.generation,
    ensures
        super_found(disk, CopiesSeen { first: true, second: true, third: true }) == Some(s),
{
    let b = (64 * 1024 * 1024) as u64;
    let c = (256 * 1024 * 1024 * 1024) as u64;
    assert(super_at(disk, 0x1_0000, true) == Some(s));
    if let Some(x) = super_at(disk, b, true) {
        assert(copy_at(disk, b, x));
    }
    if let Some(x) = super_at(disk, c, true) {
        assert(copy_at(disk, c, x));
    }
}

/// Without a valid copy there is no superblock.
pub proof fn no_copy_no_superblock(disk: Seq<u8>, seen: CopiesSeen)
    requires
        forall|at: u64, x: SuperV| copy_place(at) ==> !(#[trigger] copy_at(disk, at, x)),
    ensures
        super_found(disk, seen) is None,
{
    if let Some(s) = super_found(disk, seen) {
        let a = (64 * 1024) as u64;
        let b = (64 * 1024 * 1024) as u64;
        let c = (256 * 1024 * 1024 * 1024) as u64;
        assert(!copy_at(disk, a, s));
        assert(!copy_at(disk, b, s));
        assert(!copy_at(disk, c, s));
    }
}

} // verus!
