//! The roots of the trees, as the root tree lists them.

use vstd::prelude::*;

use crate::bytes::{get_u64, le64};
use crate::device::ReadAt;
use crate::error::{Fault, LuksError, Outcome, Result};
use crate::fs::btrfs::blocks::BlockMap;
use crate::fs::btrfs::search::{collect_range, range_items};
use crate::fs::btrfs::tree::{items_of, Key, ROOT_ITEM_KEY};
use crate::fs::btrfs::volume::{Btrfs, FsV, TreeRoot};

verus! {

/// The fewest bytes of a root item that hold all that is read of it.
pub const ROOT_ITEM_BYTES: usize = 239;

/// A root item, decoded.
pub open spec fn parse_root(objectid: u64, d: Seq<u8>) -> Outcome<TreeRoot> {
    if d.len() < ROOT_ITEM_BYTES {
        Err(Fault::CorruptFs("btrfs root item truncated"@))
    } else {
        Ok(
            TreeRoot {
                objectid,
                bytenr: le64(d, 176),
                generation: le64(d, 160),
                root_dirid: le64(d, 168),
                flags: le64(d, 208),
                level: d[238],
            },
        )
    }
}

/// The root of the tree `objectid`.
pub open spec fn root_of(fs: FsV, objectid: u64) -> Outcome<TreeRoot> {
    match range_items(
        fs,
        Map::empty(),
        fs.sb.root,
        Key { objectid, item_type: ROOT_ITEM_KEY, offset: 0 },
        Key { objectid, item_type: ROOT_ITEM_KEY, offset: u64::MAX },
    ) {
        Err(e) => Err(e),
        Ok(items) => if items.len() == 0 {
            Err(Fault::CorruptFs("btrfs tree root not found"@))
        } else {
            parse_root(objectid, items.last().data)
        },
    }
}

/// The root of the tree `objectid`, if its lookup went through (`seen`) and
/// found one.
pub open spec fn optional_root(fs: FsV, objectid: u64, seen: bool) -> Option<TreeRoot> {
    if seen {
        match root_of(fs, objectid) {
            Ok(r) => Some(r),
            Err(_) => None,
        }
    } else {
        None
    }
}

/// Decode a root item.
pub fn decode_root(objectid: u64, d: &[u8]) -> (r: Result<TreeRoot>)
    ensures
        match r {
            Ok(x) => parse_root(objectid, d@) == Ok::<TreeRoot, Fault>(x),
            Err(e) => parse_root(objectid, d@) == Err::<TreeRoot, Fault>(e@),
        },
{
    if d.len() < ROOT_ITEM_BYTES {
        return Err(LuksError::CorruptFs("btrfs root item truncated"));
    }
    Ok(
        TreeRoot {
            objectid,
            bytenr: get_u64(d, 176),
            generation: get_u64(d, 160),
            root_dirid: get_u64(d, 168),
            flags: get_u64(d, 208),
            level: d[238],
        },
    )
}

impl<D: ReadAt> Btrfs<D> {
    /// Look up the root of the tree `objectid` in the root tree.
    pub fn tree_root(&self, objectid: u64) -> (r: Result<TreeRoot>)
        ensures
            match r {
                Ok(x) => root_of(self@, objectid) == Ok::<TreeRoot, Fault>(x),
                Err(e) => root_of(self@, objectid) == Err::<TreeRoot, Fault>(e@) || (!self.steady()
                    && e@ is Io),
            },
    {
        let none = BlockMap::new();
        let lo = Key::new(objectid, ROOT_ITEM_KEY, 0);
        let hi = Key::new(objectid, ROOT_ITEM_KEY, u64::MAX);
        let items = collect_range(self, &none, self.superblock().root, &lo, &hi)?;
        let n: usize = items.len();
        if n == 0 {
            return Err(LuksError::CorruptFs("btrfs tree root not found"));
        }
        assert(items_of(items@).last() == items@[n - 1]@);
        decode_root(objectid, items[n - 1].data.as_slice())
    }

    /// Look up the root of a tree that need not exist; any failure counts as
    /// its absence.
    pub fn find_root(&self, objectid: u64) -> (r: Option<TreeRoot>)
        ensures
            r == optional_root(self@, objectid, true) || (!self.steady() && r is None),
    {
        match self.tree_root(objectid) {
            Ok(x) => Some(x),
            Err(_) => None,
        }
    }
}

} // verus!
