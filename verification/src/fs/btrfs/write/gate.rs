//! The refusal gate of write operations.
//!
//! Every condition that makes writing unsafe or unsupported is checked here,
//! before anything is allocated or changed.

use vstd::prelude::*;

use crate::device::ReadAt;
use crate::error::{text, Fault, LuksError, Result};
use crate::fs::btrfs::chunk::{
    BLOCK_GROUP_DATA, BLOCK_GROUP_METADATA, BLOCK_GROUP_SYSTEM,
};
use crate::fs::btrfs::roots::root_of;
use crate::fs::btrfs::superblock::{SuperV, Superblock};
use crate::fs::btrfs::tree::{
    items_of, Item, FREE_SPACE_BITMAP_KEY, FREE_SPACE_TREE_OBJECTID,
};
use crate::fs::btrfs::volume::{Btrfs, FsV, TreeRoot};
use crate::fs::btrfs::write::load::{all_items, walk_tree};
use crate::text::{join, join3, number, number_text};

verus! {

/// The `compat_ro` flags that writing can handle: free-space tree, and
/// free-space tree valid.
pub const SUPPORTED_WRITE_COMPAT_RO: u64 = 3;

/// Why a superblock forbids writing.
pub open spec fn fs_refusal(sb: SuperV) -> Option<Fault> {
    let unknown = sb.compat_ro_flags & !SUPPORTED_WRITE_COMPAT_RO;
    if sb.log_root != 0 {
        Some(Fault::FsNeedsRecovery)
    } else if !sb.skinny() {
        Some(Fault::UnsupportedFsFeature("btrfs non-skinny metadata"@))
    } else if unknown != 0 {
        Some(
            Fault::UnsupportedFsFeature(
                "btrfs unsupported compat_ro flags: 0x"@ + number_text(unknown as int, 16),
            ),
        )
    } else if sb.num_devices != 1 {
        Some(
            Fault::UnsupportedFsFeature(
                "btrfs spanning "@ + number_text(sb.num_devices as int, 10) + " devices"@,
            ),
        )
    } else {
        None
    }
}

/// Why a subvolume forbids writing.
pub open spec fn subvolume_refusal(root: TreeRoot) -> Option<Fault> {
    if root.read_only() {
        Some(Fault::UnsupportedFsFeature("btrfs read-only subvolume"@))
    } else {
        None
    }
}

/// Why a volume forbids writing to its default subvolume.
pub open spec fn refusal(fs: FsV) -> Option<Fault> {
    match fs_refusal(fs.sb) {
        Some(e) => Some(e),
        None => subvolume_refusal(fs.fs_tree),
    }
}

/// Check that the superblock permits writing.
pub fn check_writeable_fs(sb: &Superblock) -> (r: Result<()>)
    ensures
        match r {
            Ok(_) => fs_refusal(sb@) is None,
            Err(e) => fs_refusal(sb@) == Some(e@),
        },
{
    if sb.log_root != 0 {
        return Err(LuksError::FsNeedsRecovery);
    }
    if !sb.has_skinny_metadata() {
        return Err(LuksError::UnsupportedFsFeature(text("btrfs non-skinny metadata")));
    }
    let unknown: u64 = sb.compat_ro_flags & !SUPPORTED_WRITE_COMPAT_RO;
    if unknown != 0 {
        let digits = number(unknown, 16);
        return Err(
            LuksError::UnsupportedFsFeature(
                join("btrfs unsupported compat_ro flags: 0x", digits.as_str()),
            ),
        );
    }
    if sb.num_devices != 1 {
        let digits = number(sb.num_devices, 10);
        return Err(
            LuksError::UnsupportedFsFeature(
                join3("btrfs spanning ", digits.as_str(), " devices"),
            ),
        );
    }
    Ok(())
}

/// Check that the subvolume is writeable.
pub fn check_writeable_subvolume(root: &TreeRoot) -> (r: Result<()>)
    ensures
        match r {
            Ok(_) => subvolume_refusal(*root) is None,
            Err(e) => subvolume_refusal(*root) == Some(e@),
        },
{
    if root.is_read_only() {
        return Err(LuksError::UnsupportedFsFeature(text("btrfs read-only subvolume")));
    }
    Ok(())
}

/// Check that a volume permits writing to its default subvolume.
pub fn check_writeable<D: ReadAt>(fs: &Btrfs<D>) -> (r: Result<()>)
    ensures
        match r {
            Ok(_) => refusal(fs@) is None,
            Err(e) => refusal(fs@) == Some(e@),
        },
{
    check_writeable_fs(fs.superblock())?;
    check_writeable_subvolume(&fs.fs_tree())
}

/// The profile bits of block group flags: everything but the kind of contents.
pub open spec fn profile_bits(flags: u64) -> u64 {
    flags & !(BLOCK_GROUP_DATA | BLOCK_GROUP_SYSTEM | BLOCK_GROUP_METADATA)
}

/// Why a chunk of this kind cannot be allocated: only single copies can.
pub open spec fn profile_refusal(flags: u64) -> Option<Fault> {
    if profile_bits(flags) != 0 {
        Some(Fault::UnsupportedFsFeature("btrfs chunk allocation with a redundant profile"@))
    } else {
        None
    }
}

/// Check that a chunk of this kind can be allocated.
pub fn check_chunk_allocation_profile(flags: u64) -> (r: Result<()>)
    ensures
        match r {
            Ok(_) => profile_refusal(flags) is None,
            Err(e) => profile_refusal(flags) == Some(e@),
        },
{
    if flags & !(BLOCK_GROUP_DATA | BLOCK_GROUP_SYSTEM | BLOCK_GROUP_METADATA) != 0 {
        return Err(
            LuksError::UnsupportedFsFeature(
                text("btrfs chunk allocation with a redundant profile"),
            ),
        );
    }
    Ok(())
}

/// Why a free-space tree cannot be rewritten: it is rewritten as one leaf.
pub open spec fn shape_refusal(root: TreeRoot) -> Option<Fault> {
    if root.level != 0 {
        Some(
            Fault::UnsupportedFsFeature("btrfs free-space tree spanning more than one leaf"@),
        )
    } else {
        None
    }
}

/// Check that a free-space tree is a single leaf.
pub fn check_free_space_tree_shape(root: &TreeRoot) -> (r: Result<()>)
    ensures
        match r {
            Ok(_) => shape_refusal(*root) is None,
            Err(e) => shape_refusal(*root) == Some(e@),
        },
{
    if root.level != 0 {
        return Err(
            LuksError::UnsupportedFsFeature(
                text("btrfs free-space tree spanning more than one leaf"),
            ),
        );
    }
    Ok(())
}

/// Whether one of `items` is a free-space bitmap.
pub open spec fn has_bitmap(items: Seq<Item>) -> bool {
    exists|i: int| 0 <= i < items.len() && (#[trigger] items[i]).key.item_type
        == FREE_SPACE_BITMAP_KEY
}

/// Why the free-space tree of a volume forbids allocating a chunk: bitmaps are
/// not rewritten. A volume without the tree is fine.
pub open spec fn bitmap_refusal(fs: FsV) -> Option<Fault> {
    match root_of(fs, FREE_SPACE_TREE_OBJECTID) {
        Err(Fault::CorruptFs(_)) => None,
        Err(e) => Some(e),
        Ok(root) => match all_items(fs, root.bytenr) {
            Err(e) => Some(e),
            Ok(items) => if has_bitmap(items) {
                Some(Fault::UnsupportedFsFeature("btrfs free-space tree with bitmaps"@))
            } else {
                None
            },
        },
    }
}

/// Check that the free-space tree holds no bitmaps.
pub fn check_free_space_tree_no_bitmaps<D: ReadAt>(fs: &Btrfs<D>) -> (r: Result<()>)
    ensures
        match r {
            Ok(_) => bitmap_refusal(fs@) is None,
            Err(e) => bitmap_refusal(fs@) == Some(e@) || (!fs.steady() && e@ is Io),
        },
{
    let root = match fs.tree_root(FREE_SPACE_TREE_OBJECTID) {
        Ok(root) => root,
        Err(LuksError::CorruptFs(_)) => {
            return Ok(());
        },
        Err(e) => {
            return Err(e);
        },
    };
    let items = walk_tree(fs, root.bytenr)?;
    let ghost all = items_of(items@);
    let n: usize = items.len();
    let mut i: usize = 0;
    while i < n
        invariant
            i <= n,
            n == items@.len(),
            all == items_of(items@),
            root_of(fs@, FREE_SPACE_TREE_OBJECTID) == Ok::<TreeRoot, Fault>(root),
            all_items(fs@, root.bytenr) == Ok::<Seq<Item>, Fault>(all),
            forall|j: int|
                0 <= j < i ==> (#[trigger] all[j]).key.item_type != FREE_SPACE_BITMAP_KEY,
        decreases n - i,
    {
        if items[i].key.item_type == FREE_SPACE_BITMAP_KEY {
            assert(all[i as int].key.item_type == FREE_SPACE_BITMAP_KEY);
            return Err(
                LuksError::UnsupportedFsFeature(text("btrfs free-space tree with bitmaps")),
            );
        }
        i += 1;
    }
    Ok(())
}

} // verus!
