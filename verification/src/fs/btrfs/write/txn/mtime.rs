//! Touching a file.

use vstd::prelude::*;

use crate::device::ReadAt;
use crate::error::{Outcome, Result};
use crate::fs::btrfs::volume::{Btrfs, FsV};
use crate::fs::btrfs::write::converge::{possible, Lookups};
use crate::fs::btrfs::write::edit::{InodePatch, SizeEdit};
use crate::fs::btrfs::write::gate::{check_writeable, refusal};
use crate::fs::btrfs::write::load::space_on;
use crate::fs::btrfs::write::space::FreeSpaceMap;
use crate::fs::btrfs::write::txn::{
    change_files, files_changed, new_generation, next_generation, touch, touch_op, tracks_some,
    Transaction, TxnV,
};
use crate::fs::btrfs::write::workspace::{ops_of, TreeOp};

verus! {

/// An inode's change and modification times, moved.
pub open spec fn times_set(generation: u64, sec: u64, nsec: u32) -> InodePatch {
    InodePatch { generation, size: SizeEdit::Keep, sec, nsec, modified: true }
}

/// The transaction that sets the times of inode `ino`.
pub open spec fn touched(fs: FsV, ino: u64, sec: u64, nsec: u32, seen: Lookups) -> Outcome<TxnV> {
    let g = next_generation(fs);
    match refusal(fs) {
        Some(e) => Err(e),
        None => match space_on(fs) {
            Err(e) => Err(e),
            Ok(space) => files_changed(
                fs,
                g,
                space,
                seq![
                    touch(
                        ino,
                        times_set(g, sec, nsec),
                        "inode not found"@,
                        "inode item truncated"@,
                    ),
                ],
                seen,
            ),
        },
    }
}

impl Transaction {
    /// Prepare a transaction that sets the modification and change times of an
    /// existing inode.
    pub fn update_inode_mtime<D: ReadAt>(
        fs: &Btrfs<D>,
        inode_number: u64,
        mtime_sec: u64,
        mtime_nsec: u32,
    ) -> (r: Result<Self>)
        ensures
            tracks_some(
                fs.steady(),
                r,
                |seen: Lookups| touched(fs@, inode_number, mtime_sec, mtime_nsec, seen),
            ),
    {
        assert(possible(fs.steady(), Lookups { csum: true, fst: true, shape: true }));
        check_writeable(fs)?;
        let generation: u64 = new_generation(fs);
        let allocator = FreeSpaceMap::read(fs)?;
        let patch = InodePatch {
            generation,
            size: SizeEdit::Keep,
            sec: mtime_sec,
            nsec: mtime_nsec,
            modified: true,
        };
        let mut ops: Vec<TreeOp> = Vec::new();
        ops.push(touch_op(inode_number, patch, "inode not found", "inode item truncated"));
        assert(ops_of(ops@) =~= seq![
            touch(inode_number, patch, "inode not found"@, "inode item truncated"@),
        ]);
        change_files(fs, generation, allocator, &ops)
    }
}

} // verus!
