# luks_core

Filesystem drivers for volumes held on any device that can be read at an offset:
ext4 for reading, btrfs for reading and writing. The library is written in Verus;
every function states what it does in its contract, and Verus proves it.

- `src/` is the verified library.
  - `device.rs` models a device as a byte image and a history of operations.
  - `fs/detect.rs` tells filesystems apart by their signatures.
  - `fs/ext4/` reads ext4.
  - `fs/btrfs/` reads btrfs: superblocks, chunks, nodes, searches, files.
  - `fs/btrfs/write/` changes btrfs by copy-on-write: leaves and interior nodes,
    free space, transactions, batches of files and the commit.
- `tests/` runs the library, on small images built in memory.
- `app/` gives it real files, clocks and printable errors.

## Reading the contracts

A contract relates values to their views: a volume to an `FsV`, a node to a
`NodeV`, an error to a `Fault`. Spec functions return an `Outcome`; `tracks` and
its relatives in `error.rs` say that a result is the one the spec function gives,
or a transfer failure on a device that may fail.

## Laws

What holds across functions is stated by public proof functions, in
`fs/btrfs/write/`:

- `roundtrip.rs`, `entries.rs`: what is emitted parses to what it was made of.
- `tiling.rs`, `handout.rs`, `withholding.rs`: free and allocated space tile the
  block groups, space is handed out once, and only if it was free, and what is
  withheld is not handed out.
- `releasing.rs`: what a commit releases is what was pinned and is not withheld,
  and a freed block is not handed out before.
- `summing.rs`: the checksum items of a run are, one behind the other, its whole
  checksum payload.
- `placing.rs`, `appending.rs`, `landing.rs`: the runs set aside for a file are
  whole sectors that share no byte, and writing a file in pieces leaves what
  writing it at once leaves.
- `contents.rs`, `sweep.rs`, `tree_map.rs`: a search and a range of keys give what
  the tree holds, and insertions and edits do to a tree what they do to a map.
- `grove.rs`, `change.rs`: a transaction does to the files what its operations
  say, and finishing it leaves them alone.
- `linking.rs`, `custody.rs`, `bookkeeping.rs`, `recording.rs`: the extent tree
  records every block of the trees, and a transaction keeps it so.
- `granting.rs`, `balance.rs`, `rooting.rs`, `counters.rs`, `counting.rs`: in the
  extent tree that a transaction leads to, the used counter of a block group is the
  sum of the extents inside that group.
- `holdings.rs`: it lists the data that a transaction adds, and no longer the data
  that it drops.
- `readback.rs`, `remount.rs`: what a commit wrote is what is read, and the volume
  mounts again as it is; a commit that fails before the superblock leaves a volume
  that mounts as before.
- `creation.rs`, `filling.rs`, `batching.rs`, `removal.rs`, `moving.rs`,
  `stamping.rs`: what was created, written, added to a batch, deleted, renamed or
  stamped is found so afterwards.
- `resolving.rs`, `promises.rs`: what each operation on files comes to on a volume
  in order, from the call to the device after the commit; a deleted path is not
  found.

The laws that speak of the device after a commit hold where the commit went
through, no two of its writes share a byte of the device, and none reaches a block
of the tree that is kept (`commits_clear` in `change.rs`). `claiming.rs` and
`clearing.rs` show when that is so: a transaction writes into free space alone, and
where the chunks lie apart, each piece lies in one chunk and the blocks that are
kept were in use, its commit is clear.

In `fs/ext4/`, `splitting.rs` shows that a read in two parts gives what one read
gives.
