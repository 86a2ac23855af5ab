//! Allocating a data chunk.

use vstd::prelude::*;

use crate::device::ReadAt;
use crate::error::Result;
use crate::fs::btrfs::chunk::Chunk;
use crate::fs::btrfs::volume::Btrfs;
use crate::fs::btrfs::write::chunk_alloc::{
    allocate_data_chunk_transaction, allocate_data_chunk_transaction_excluding, chunk_allocated,
};
use crate::fs::btrfs::write::converge::Lookups;
use crate::fs::btrfs::write::txn::{tracks_some, Transaction};

verus! {

impl Transaction {
    /// Prepare a transaction that allocates a data chunk.
    pub fn allocate_data_chunk<D: ReadAt>(fs: &Btrfs<D>) -> (r: Result<(Self, Chunk)>)
        ensures
            tracks_some(
                fs.steady(),
                r,
                |seen: Lookups| chunk_allocated(fs@, Seq::empty(), seen),
            ),
    {
        allocate_data_chunk_transaction(fs)
    }

    /// Prepare a transaction that allocates a data chunk, with its metadata
    /// kept clear of the `reserved` ranges (address and length).
    pub fn allocate_data_chunk_excluding<D: ReadAt>(fs: &Btrfs<D>, reserved: &[(u64, u64)]) -> (r:
        Result<(Self, Chunk)>)
        ensures
            tracks_some(
                fs.steady(),
                r,
                |seen: Lookups| chunk_allocated(fs@, reserved@, seen),
            ),
    {
        allocate_data_chunk_transaction_excluding(fs, reserved)
    }
}

} // verus!
