//! Batches: several file writes in one transaction.
//!
//! A batch keeps its roots, unwritten blocks and allocator in memory from file
//! to file, so that the trees need not be read anew for each of them.

use std::collections::HashMap;

use vstd::prelude::*;

use crate::device::ReadAt;
use crate::error::{text, tracks, Fault, LuksError, Outcome, Result};
use crate::fs::btrfs::blocks::{addresses_of, bytes_at, bytes_at_bound, BlockMap};
use crate::fs::btrfs::crc32c::name_hash;
use crate::fs::btrfs::files::{entry_key, next_index};
use crate::fs::btrfs::inode::{any_named, dir_entries, find_name, parse_dir_entries};
use crate::fs::btrfs::roots::optional_root;
use crate::fs::btrfs::search::{find_item, find_item_in_tree};
use crate::fs::btrfs::tree::{
    Key, CSUM_TREE_OBJECTID, DIR_ITEM_KEY, EXTENT_DATA_KEY, FS_TREE_OBJECTID,
};
use crate::fs::btrfs::volume::{Btrfs, FsV};
use crate::fs::btrfs::write::converge::{
    converge_and_finalize, file_changes, finalized, looked_up, only_files, ChangesV,
};
use crate::fs::btrfs::write::cow::agrees;
use crate::fs::btrfs::write::extent_tree::cap64;
use crate::fs::btrfs::write::file::{as_file, BtrfsFileWriter};
use crate::fs::btrfs::write::interval_set::{without, IntervalSet};
use crate::fs::btrfs::write::load::space_on;
use crate::fs::btrfs::write::payload::{
    build_extent_csum_items_from_checksums, build_inode_item, build_regular_file_extent,
    file_extent_bytes, inode_item_bytes, packed_items,
};
use crate::fs::btrfs::write::space::{mark, unpin, BgV, FreeSpaceMap};
use crate::fs::btrfs::write::txn::create::{directory_at, file_exists, find_directory, FILE_MODE};
use crate::fs::btrfs::write::txn::data::{csum_changes, csum_ops};
use crate::fs::btrfs::write::txn::{
    entry_changes, entry_ops, files_root, new_generation, new_inode_number, next_generation,
    next_inode, push_op, NewEntry, NewEntryV, Transaction, TxnV,
};
use crate::fs::btrfs::write::workspace::{
    broken_off, claim, double_allocation, ops_of, steps, OpV, StateV, TreeOp, Workspace,
};
use crate::seqs::{copy_vec, first_idx, first_idx_is};
use crate::text::{bytes_of, join5, text_eq, utf8};

verus! {

broadcast use vstd::std_specs::hash::group_hash_axioms;

/// A batch is committed once it holds this many files.
pub const MAX_BATCH_FILES: usize = 16;
/// A batch is committed once its tree blocks take up this many bytes.
pub const MAX_BATCH_METADATA: u64 = 8388608;
/// A batch is committed once its files hold this many bytes.
pub const MAX_BATCH_DATA: u64 = 67108864;
/// A batch is committed once it is this many milliseconds old.
pub const MAX_BATCH_AGE: u64 = 2000;

/// A new data extent: address, length, tree, inode and file offset.
pub type NewExtent = (u64, u64, u64, u64, u64);

/// A directory that files were put in: its inode number, and whom it belongs
/// to.
pub type Owner = (u64, u32, u32);

/// What a batch was before a file was added.
#[derive(Debug)]
pub struct FileMark {
    pub work: Workspace,
    pub fs_root: (u64, u8),
    pub csum_root: Option<(u64, u8)>,
    pub data_extents_to_add: Vec<NewExtent>,
    pub next_ino: u64,
    pub next_dir_index: HashMap<u64, u64>,
    pub accumulated_files: usize,
    pub accumulated_data_bytes: u64,
}

/// File writes that are not committed yet.
#[derive(Debug)]
pub struct Batch {
    pub generation: u64,
    /// Blocks, allocator and bookkeeping, with a ledger of all that was handed
    /// out.
    pub work: Workspace,
    pub fs_root: (u64, u8),
    pub csum_root: Option<(u64, u8)>,
    pub data_extents_to_add: Vec<NewExtent>,
    pub next_ino: u64,
    /// The next index of each directory that files were put in.
    pub next_dir_index: HashMap<u64, u64>,
    /// The directories that were looked up, by path.
    pub parents: Vec<(String, Owner)>,
    pub accumulated_files: usize,
    pub accumulated_data_bytes: u64,
    /// When the batch was opened, in milliseconds.
    pub start_time: u64,
}

/// The mathematical view of a [`Batch`].
#[verifier::ext_equal]
pub struct BatchV {
    pub generation: u64,
    pub state: StateV,
    pub fs_root: (u64, u8),
    pub csum_root: Option<(u64, u8)>,
    pub added: Seq<NewExtent>,
    pub next_ino: u64,
    pub next_index: Map<u64, u64>,
    pub parents: Seq<(Seq<char>, Owner)>,
    pub files: usize,
    pub bytes: u64,
    pub started: u64,
}

/// The views of directories by path.
pub open spec fn parents_of(s: Seq<(String, Owner)>) -> Seq<(Seq<char>, Owner)> {
    s.map_values(|p: (String, Owner)| (p.0@, p.1))
}

impl View for Batch {
    type V = BatchV;

    open spec fn view(&self) -> BatchV {
        BatchV {
            generation: self.generation,
            state: self.work@,
            fs_root: self.fs_root,
            csum_root: self.csum_root,
            added: self.data_extents_to_add@,
            next_ino: self.next_ino,
            next_index: self.next_dir_index@,
            parents: parents_of(self.parents@),
            files: self.accumulated_files,
            bytes: self.accumulated_data_bytes,
            started: self.start_time,
        }
    }
}

/// A batch without files.
pub open spec fn fresh_batch(fs: FsV, space: Seq<BgV>, next_ino: u64, now: u64) -> BatchV {
    BatchV {
        generation: next_generation(fs),
        state: StateV {
            pending: Map::empty(),
            space,
            add: Seq::empty(),
            remove: Seq::empty(),
            ledger: Some(Seq::empty()),
        },
        fs_root: files_root(fs),
        csum_root: None,
        added: Seq::empty(),
        next_ino,
        next_index: Map::empty(),
        parents: Seq::empty(),
        files: 0,
        bytes: 0,
        started: now,
    }
}

/// A batch opened on an allocator.
pub open spec fn opened_with(fs: FsV, space: Seq<BgV>, now: u64) -> Outcome<BatchV> {
    match next_inode(fs) {
        Err(e) => Err(e),
        Ok(ino) => Ok(fresh_batch(fs, space, ino, now)),
    }
}

/// A batch opened on a volume.
pub open spec fn opened(fs: FsV, now: u64) -> Outcome<BatchV> {
    match space_on(fs) {
        Err(e) => Err(e),
        Ok(space) => opened_with(fs, space, now),
    }
}

/// A file whose data is written, about to be added to a batch.
pub struct WrittenFile<'a> {
    /// Whether the size was unknown at the start.
    pub streaming: bool,
    pub written: u64,
    pub declared: u64,
    /// Where the data lies: address and length.
    pub runs: &'a [(u64, u64)],
    /// The checksum of each sector, by address.
    pub sums: &'a [(u64, u32)],
    pub parent: &'a str,
    pub name: &'a str,
    pub sec: u64,
    pub nsec: u32,
    /// Whether the runs are in the ledger already.
    pub reserved: bool,
}

/// The mathematical view of a [`WrittenFile`].
pub struct WrittenV {
    pub streaming: bool,
    pub written: u64,
    pub declared: u64,
    pub runs: Seq<(u64, u64)>,
    pub sums: Seq<(u64, u32)>,
    pub parent: Seq<char>,
    pub name: Seq<char>,
    pub sec: u64,
    pub nsec: u32,
    pub reserved: bool,
}

impl<'a> View for WrittenFile<'a> {
    type V = WrittenV;

    open spec fn view(&self) -> WrittenV {
        WrittenV {
            streaming: self.streaming,
            written: self.written,
            declared: self.declared,
            runs: self.runs@,
            sums: self.sums@,
            parent: self.parent@,
            name: self.name@,
            sec: self.sec,
            nsec: self.nsec,
            reserved: self.reserved,
        }
    }
}

impl WrittenV {
    /// The size of the file.
    pub open spec fn size(self) -> u64 {
        if self.streaming {
            self.written
        } else {
            self.declared
        }
    }
}

/// The state once the data runs are taken: entered in the ledger and taken from
/// the allocator. Runs that were reserved for a writer were taken when they were
/// reserved.
pub open spec fn runs_taken(s: StateV, runs: Seq<(u64, u64)>, reserved: bool) -> Outcome<StateV>
    decreases runs.len(),
{
    if runs.len() == 0 {
        Ok(s)
    } else {
        match runs_taken(s, runs.drop_last(), reserved) {
            Err(e) => Err(e),
            Ok(t) => {
                let (at, len) = runs.last();
                if len == 0 || reserved {
                    Ok(t)
                } else {
                    let l = if t.ledger is None {
                        Some(t.ledger)
                    } else {
                        match claim(t.ledger->Some_0, at, len) {
                            Some(l) => Some(Some(l)),
                            None => None,
                        }
                    };
                    match l {
                        None => Err(double_allocation()),
                        Some(ledger) => match mark(t.space, at, len) {
                            Err(e) => Err(e),
                            Ok(space) => Ok(StateV { ledger, space, ..t }),
                        },
                    }
                }
            },
        }
    }
}

/// What taking runs leaves of `s` where it fails: the runs before the one that
/// failed are taken, and that one may be entered in the ledger.
pub open spec fn runs_half_taken(
    s: StateV,
    runs: Seq<(u64, u64)>,
    reserved: bool,
    t: StateV,
) -> bool {
    exists|n: int|
        0 <= n <= runs.len() && (runs_taken(s, #[trigger] runs.take(n), reserved) matches Ok(u) && {
            ||| t == u
            ||| n < runs.len() && (u.ledger matches Some(l) && claim(
                l,
                runs[n].0,
                runs[n].1,
            ) matches Some(m) && t == (StateV { ledger: Some(m), ..u }))
        })
}

proof fn runs_untaken(s: StateV, runs: Seq<(u64, u64)>, reserved: bool)
    ensures
        runs_half_taken(s, runs, reserved, s),
        runs_taken(s, runs, reserved) matches Ok(t) ==> runs_half_taken(s, runs, reserved, t),
{
    assert(runs_taken(s, runs.take(0), reserved) == Ok::<StateV, Fault>(s));
    assert(runs.take(runs.len() as int) =~= runs);
}

proof fn runs_taken_err(s: StateV, runs: Seq<(u64, u64)>, reserved: bool, n: int)
    requires
        0 <= n <= runs.len(),
        runs_taken(s, runs.take(n), reserved) is Err,
    ensures
        runs_taken(s, runs, reserved) == runs_taken(s, runs.take(n), reserved),
    decreases runs.len() - n,
{
    if n == runs.len() {
        assert(runs.take(n) =~= runs);
    } else {
        assert(runs.take(n + 1).drop_last() =~= runs.take(n));
        runs_taken_err(s, runs, reserved, n + 1);
    }
}

/// Directories that were looked up under this path.
pub open spec fn at_path(path: Seq<char>) -> spec_fn((Seq<char>, Owner)) -> bool {
    |p: (Seq<char>, Owner)| p.0 == path
}

/// The directory at `path`, from those looked up before or from the volume;
/// with it those looked up now.
pub open spec fn parent_found(fs: FsV, parents: Seq<(Seq<char>, Owner)>, path: Seq<char>) -> Outcome<
    (Owner, Seq<(Seq<char>, Owner)>),
> {
    let i = first_idx(parents, at_path(path));
    if i < parents.len() {
        Ok((parents[i].1, parents))
    } else {
        match directory_at(fs, path, "subvolume file creation not yet supported"@) {
            Err(e) => Err(e),
            Ok(x) => {
                let o = (x.inode.objectid, x.inode.uid, x.inode.gid);
                Ok((o, parents.push((path, o))))
            },
        }
    }
}

/// Whether `name` is free in directory `dir`, as the batch left it.
pub open spec fn batch_name_free(fs: FsV, b: BatchV, dir: u64, name: Seq<char>, path: Seq<char>) -> Outcome<
    (),
> {
    match find_item(fs, b.state.pending, b.fs_root.0, entry_key(dir, utf8(name))) {
        Err(e) => Err(e),
        Ok(None) => Ok(()),
        Ok(Some(d)) => match dir_entries(d) {
            Err(e) => Err(e),
            Ok(items) => if any_named(items, utf8(name)) {
                Err(Fault::AlreadyExists(file_exists(name, path)))
            } else {
                Ok(())
            },
        },
    }
}

/// The index for the next file in directory `dir`, and the indices to follow.
pub open spec fn index_taken(fs: FsV, next: Map<u64, u64>, dir: u64) -> Outcome<
    (u64, Map<u64, u64>),
> {
    if next.contains_key(dir) {
        Ok((next[dir], next.insert(dir, cap64(next[dir] + 1))))
    } else {
        match next_index(fs, fs.fs_tree.bytenr, dir) {
            Err(e) => Err(e),
            Ok(i) => Ok((i, next.insert(dir, cap64(i + 1)))),
        }
    }
}

/// Bytes of all runs.
pub open spec fn runs_len(runs: Seq<(u64, u64)>) -> u64
    decreases runs.len(),
{
    if runs.len() == 0 {
        0
    } else {
        cap64(runs_len(runs.drop_last()) + runs.last().1)
    }
}

/// The file extent items for the runs of inode `ino`, one behind the other.
pub open spec fn run_ops(generation: u64, ino: u64, runs: Seq<(u64, u64)>) -> Seq<OpV>
    decreases runs.len(),
{
    if runs.len() == 0 {
        Seq::empty()
    } else {
        let s = run_ops(generation, ino, runs.drop_last());
        let (at, len) = runs.last();
        if len == 0 {
            s
        } else {
            s.push(
                OpV::Insert {
                    key: Key {
                        objectid: ino,
                        item_type: EXTENT_DATA_KEY,
                        offset: runs_len(runs.drop_last()),
                    },
                    data: file_extent_bytes(generation, len, at, len, len),
                },
            )
        }
    }
}

/// The data extents for the runs of inode `ino`.
pub open spec fn run_extents(ino: u64, runs: Seq<(u64, u64)>) -> Seq<NewExtent>
    decreases runs.len(),
{
    if runs.len() == 0 {
        Seq::empty()
    } else {
        let s = run_extents(ino, runs.drop_last());
        let (at, len) = runs.last();
        if len == 0 {
            s
        } else {
            s.push((at, len, FS_TREE_OBJECTID, ino, runs_len(runs.drop_last())))
        }
    }
}

/// The state once checksums are in the checksum tree, and the tree's root.
pub open spec fn sums_added(
    fs: FsV,
    generation: u64,
    s: StateV,
    root: Option<(u64, u8)>,
    sums: Seq<(u64, u32)>,
    seen: bool,
) -> Outcome<(StateV, Option<(u64, u8)>)> {
    if sums.len() == 0 {
        Ok((s, root))
    } else {
        match optional_root(fs, CSUM_TREE_OBJECTID, seen) {
            None => Ok((s, root)),
            Some(t) => match packed_items(fs.sb.node_size, sums) {
                Err(e) => Err(e),
                Ok(items) => match steps(
                    fs,
                    generation,
                    CSUM_TREE_OBJECTID,
                    s,
                    match root {
                        Some(r) => r,
                        None => (t.bytenr, t.level),
                    },
                    csum_ops(items),
                ) {
                    Err(e) => Err(e),
                    Ok((u, r)) => Ok((u, Some(r))),
                },
            },
        }
    }
}

/// What adding checksums leaves of `s` where it fails.
pub open spec fn sums_half_added(
    fs: FsV,
    generation: u64,
    s: StateV,
    root: Option<(u64, u8)>,
    sums: Seq<(u64, u32)>,
    t: StateV,
) -> bool {
    ||| t == s
    ||| optional_root(fs, CSUM_TREE_OBJECTID, true) matches Some(x) && packed_items(
        fs.sb.node_size,
        sums,
    ) matches Ok(items) && broken_off(
        fs,
        generation,
        CSUM_TREE_OBJECTID,
        s,
        match root {
            Some(r) => r,
            None => (x.bytenr, x.level),
        },
        csum_ops(items),
        t,
    )
}

/// The changes of the default subvolume that add a file.
pub open spec fn file_ops(b: BatchV, f: WrittenV, dir: Owner, index: u64) -> Seq<OpV> {
    entry_ops(
        NewEntryV {
            generation: b.generation,
            parent: dir.0,
            ino: b.next_ino,
            index,
            name: f.name,
            kind: 1,
            sec: f.sec,
            nsec: f.nsec,
            shares: false,
            missing: "parent inode not found in leaf"@,
        },
        inode_item_bytes(
            b.generation,
            f.size(),
            runs_len(f.runs),
            FILE_MODE,
            dir.1,
            dir.2,
            1,
            f.sec,
            f.nsec,
        ),
    ) + run_ops(b.generation, b.next_ino, f.runs)
}

/// The batch with a file added, and the file's inode number; `seen` says
/// whether the lookup of the checksum tree went through.
pub open spec fn file_added(fs: FsV, b: BatchV, f: WrittenV, seen: bool) -> Outcome<(BatchV, u64)> {
    if !f.streaming && f.written != f.declared {
        Err(Fault::OutOfBounds)
    } else {
        match runs_taken(b.state, f.runs, f.reserved) {
            Err(e) => Err(e),
            Ok(s) => match parent_found(fs, b.parents, f.parent) {
                Err(e) => Err(e),
                Ok((dir, parents)) => match batch_name_free(
                    fs,
                    BatchV { state: s, ..b },
                    dir.0,
                    f.name,
                    f.parent,
                ) {
                    Err(e) => Err(e),
                    Ok(_) => match index_taken(fs, b.next_index, dir.0) {
                        Err(e) => Err(e),
                        Ok((index, next)) => match steps(
                            fs,
                            b.generation,
                            FS_TREE_OBJECTID,
                            s,
                            b.fs_root,
                            file_ops(b, f, dir, index),
                        ) {
                            Err(e) => Err(e),
                            Ok((t, fs_root)) => match sums_added(
                                fs,
                                b.generation,
                                t,
                                b.csum_root,
                                f.sums,
                                seen,
                            ) {
                                Err(e) => Err(e),
                                Ok((u, csum_root)) => Ok(
                                    (
                                        BatchV {
                                            state: u,
                                            fs_root,
                                            csum_root,
                                            added: b.added + run_extents(b.next_ino, f.runs),
                                            next_ino: cap64(b.next_ino + 1),
                                            next_index: next,
                                            parents,
                                            files: if b.files == usize::MAX {
                                                usize::MAX
                                            } else {
                                                (b.files + 1) as usize
                                            },
                                            bytes: cap64(b.bytes + f.size()),
                                            ..b
                                        },
                                        b.next_ino,
                                    ),
                                ),
                            },
                        },
                    },
                },
            },
        }
    }
}

/// What adding a file leaves of the batch `b` where it fails: the steps before
/// the one that failed are done.
pub open spec fn half_added(fs: FsV, b: BatchV, f: WrittenV, t: BatchV) -> bool {
    ||| t == (BatchV { state: t.state, ..b }) && runs_half_taken(
        b.state,
        f.runs,
        f.reserved,
        t.state,
    )
    ||| runs_taken(b.state, f.runs, f.reserved) matches Ok(s) && parent_found(
        fs,
        b.parents,
        f.parent,
    ) matches Ok(x) && {
        let known = BatchV { state: s, parents: x.1, ..b };
        let numbered = BatchV { next_ino: cap64(b.next_ino + 1), ..known };
        ||| t == known
        ||| t == numbered
        ||| index_taken(fs, b.next_index, x.0.0) matches Ok(y) && {
            let ops = file_ops(b, f, x.0, y.0);
            let indexed = BatchV { next_index: y.1, ..numbered };
            ||| t == (BatchV { state: t.state, ..indexed }) && broken_off(
                fs,
                b.generation,
                FS_TREE_OBJECTID,
                s,
                b.fs_root,
                ops,
                t.state,
            )
            ||| steps(fs, b.generation, FS_TREE_OBJECTID, s, b.fs_root, ops) matches Ok(z) && t == (
            BatchV {
                state: t.state,
                fs_root: z.1,
                added: b.added + run_extents(b.next_ino, f.runs),
                ..indexed
            }) && sums_half_added(fs, b.generation, z.0, b.csum_root, f.sums, t.state)
        }
    }
}

/// What committing a batch changes.
pub open spec fn batch_changes(fs: FsV, b: BatchV) -> ChangesV {
    ChangesV {
        csum_root: b.csum_root,
        added: b.added,
        ..only_files(fs, b.generation, b.fs_root)
    }
}

/// The transaction that a batch comes to.
pub open spec fn batch_committed(fs: FsV, b: BatchV, fst: bool) -> Outcome<TxnV> {
    finalized(fs, batch_changes(fs, b), StateV { ledger: None, ..b.state }, fst)
}

/// A batch once its files were committed by `t`: the allocator, the inode
/// numbers, the indices and the directories stay known.
pub open spec fn rearmed(b: BatchV, t: TxnV, now: u64) -> BatchV {
    BatchV {
        generation: t.generation,
        state: StateV {
            pending: Map::empty(),
            space: match t.space {
                Some(a) => unpin(a),
                None => b.state.space,
            },
            add: Seq::empty(),
            remove: Seq::empty(),
            ledger: Some(Seq::empty()),
        },
        fs_root: (t.fs_tree.bytenr, t.fs_tree.level),
        csum_root: None,
        added: Seq::empty(),
        files: 0,
        bytes: 0,
        started: now,
        ..b
    }
}

/// A batch once it was set back to where `m` was taken; only the directories
/// that were looked up since stay known.
pub open spec fn rolled_back(b: BatchV, m: BatchV) -> BatchV {
    BatchV { generation: b.generation, parents: b.parents, started: b.started, ..m }
}

/// Whether a batch holds anything that is not committed.
pub open spec fn uncommitted(b: BatchV) -> bool {
    b.files > 0 || b.state.pending != Map::<u64, Seq<u8>>::empty() || b.state.add.len() > 0
        || b.state.remove.len() > 0 || b.added.len() > 0
}

/// Whether a batch is due: it holds enough files, tree blocks or data, or is
/// old enough.
pub open spec fn due(b: BatchV, now: u64) -> bool {
    b.files >= MAX_BATCH_FILES || bytes_at(b.state.pending, addresses_of(b.state.pending))
        >= MAX_BATCH_METADATA || b.bytes >= MAX_BATCH_DATA || now - b.started >= MAX_BATCH_AGE
}

/// Taking a mark, adding files and rolling back leaves the batch as it was,
/// but for the directories that were looked up meanwhile.
pub proof fn rollback_restores(b: BatchV, later: BatchV)
    requires
        later.generation == b.generation,
        later.started == b.started,
    ensures
        rolled_back(later, b) == (BatchV { parents: later.parents, ..b }),
{
}

/// Adding a file leaves the generation and the age of a batch alone, uses up
/// one inode number, and counts the file and its bytes.
pub proof fn adding_counts(fs: FsV, b: BatchV, f: WrittenV, seen: bool)
    requires
        file_added(fs, b, f, seen) is Ok,
        b.next_ino < u64::MAX,
        b.files < usize::MAX,
        b.bytes + f.size() <= u64::MAX,
    ensures
        ({
            let (c, ino) = file_added(fs, b, f, seen)->Ok_0;
            &&& ino == b.next_ino
            &&& c.next_ino == b.next_ino + 1
            &&& c.generation == b.generation
            &&& c.started == b.started
            &&& c.files == b.files + 1
            &&& c.bytes == b.bytes + f.size()
        }),
{
}

/// A committed batch holds nothing that is not committed.
pub proof fn rearmed_is_clean(b: BatchV, t: TxnV, now: u64)
    ensures
        !uncommitted(rearmed(b, t, now)),
{
}

fn copy_work(w: &Workspace) -> (r: Workspace)
    ensures
        r@ == w@,
{
    let ledger = match &w.ledger {
        Some(l) => Some(l.clone()),
        None => None,
    };
    Workspace {
        pending: w.pending.clone(),
        allocator: w.allocator.clone(),
        add: copy_vec(&w.add),
        remove: copy_vec(&w.remove),
        ledger,
    }
}

impl Batch {
    /// Open a batch on a volume; `now` is the time in milliseconds.
    pub fn open<D: ReadAt>(fs: &Btrfs<D>, now: u64) -> (r: Result<Self>)
        ensures
            tracks(fs.steady(), r, opened(fs@, now)),
    {
        let allocator = FreeSpaceMap::read(fs)?;
        Batch::open_with_allocator(fs, allocator, now)
    }

    /// Open a batch on an allocator; `now` is the time in milliseconds.
    pub fn open_with_allocator<D: ReadAt>(fs: &Btrfs<D>, allocator: FreeSpaceMap, now: u64) -> (r:
        Result<Self>)
        ensures
            tracks(fs.steady(), r, opened_with(fs@, allocator@, now)),
    {
        let next_ino: u64 = new_inode_number(fs)?;
        let tree = fs.fs_tree();
        let b = Batch {
            generation: new_generation(fs),
            work: Workspace {
                pending: BlockMap::new(),
                allocator,
                add: Vec::new(),
                remove: Vec::new(),
                ledger: Some(IntervalSet::new()),
            },
            fs_root: (tree.bytenr, tree.level),
            csum_root: None,
            data_extents_to_add: Vec::new(),
            next_ino,
            next_dir_index: HashMap::new(),
            parents: Vec::new(),
            accumulated_files: 0,
            accumulated_data_bytes: 0,
            start_time: now,
        };
        assert(b@ =~= fresh_batch(fs@, allocator@, next_ino, now));
        Ok(b)
    }

    /// Remember the batch, before a file is added.
    pub fn mark(&self) -> (r: FileMark)
        ensures
            r.of() == (BatchV {
                generation: r.of().generation,
                parents: r.of().parents,
                started: r.of().started,
                ..self@
            }),
    {
        FileMark {
            work: copy_work(&self.work),
            fs_root: self.fs_root,
            csum_root: self.csum_root,
            data_extents_to_add: copy_vec(&self.data_extents_to_add),
            next_ino: self.next_ino,
            next_dir_index: self.next_dir_index.clone(),
            accumulated_files: self.accumulated_files,
            accumulated_data_bytes: self.accumulated_data_bytes,
        }
    }

    /// Set the batch back to where `mark` was taken.
    pub fn rollback(&mut self, mark: FileMark)
        ensures
            final(self)@ == rolled_back(old(self)@, mark.of()),
    {
        self.work = mark.work;
        self.fs_root = mark.fs_root;
        self.csum_root = mark.csum_root;
        self.data_extents_to_add = mark.data_extents_to_add;
        self.next_ino = mark.next_ino;
        self.next_dir_index = mark.next_dir_index;
        self.accumulated_files = mark.accumulated_files;
        self.accumulated_data_bytes = mark.accumulated_data_bytes;
    }

    /// Whether the batch holds anything that is not committed.
    pub fn has_uncommitted_files(&self) -> (r: bool)
        ensures
            r == uncommitted(self@),
    {
        self.accumulated_files > 0 || !self.work.pending.is_empty() || self.work.add.len() > 0
            || self.work.remove.len() > 0 || self.data_extents_to_add.len() > 0
    }

    /// Whether the batch should be committed now; `now` is the time in
    /// milliseconds.
    pub fn should_commit(&self, now: u64) -> (r: bool)
        ensures
            r == due(self@, now),
    {
        proof {
            bytes_at_bound(self.work.pending@, addresses_of(self.work.pending@));
        }
        if self.accumulated_files >= MAX_BATCH_FILES {
            return true;
        }
        if self.work.pending.total_bytes() >= MAX_BATCH_METADATA {
            return true;
        }
        if self.accumulated_data_bytes >= MAX_BATCH_DATA {
            return true;
        }
        now.saturating_sub(self.start_time) >= MAX_BATCH_AGE
    }

    /// Enter `[start, start + length)` in the ledger; refused where some of it
    /// was handed out before.
    pub fn record_allocation(&mut self, start: u64, length: u64) -> (r: Result<()>)
        ensures
            match old(self)@.state.ledger {
                None => r is Ok && final(self)@ == old(self)@,
                Some(l) => match claim(l, start, length) {
                    None => (r matches Err(e) && e@ == double_allocation()) && final(self)@
                        == old(self)@,
                    Some(m) => r is Ok && final(self)@ == (BatchV {
                        state: StateV { ledger: Some(m), ..old(self)@.state },
                        ..old(self)@
                    }),
                },
            },
    {
        match &mut self.work.ledger {
            None => Ok(()),
            Some(l) => {
                if !l.insert(start, length) {
                    return Err(
                        LuksError::CorruptFs(
                            "double allocation detected in batch allocation ledger",
                        ),
                    );
                }
                Ok(())
            },
        }
    }

    /// Take `[start, start + length)` off the ledger; refused where it is not
    /// all there.
    pub fn release_allocation(&mut self, start: u64, length: u64) -> (r: Result<()>)
        ensures
            match old(self)@.state.ledger {
                None => r is Err && final(self)@ == old(self)@,
                Some(l) => {
                    let held = length == 0 || (start + length <= u64::MAX && exists|i: int|
                        0 <= i < l.len() && (#[trigger] l[i]).0 <= start && start + length
                            <= l[i].1);
                    &&& r is Ok == held
                    &&& final(self)@ == (BatchV {
                        state: StateV {
                            ledger: Some(
                                if held && length > 0 {
                                    without(l, start, (start + length) as u64)
                                } else {
                                    l
                                },
                            ),
                            ..old(self)@.state
                        },
                        ..old(self)@
                    })
                },
            },
            r matches Err(e) ==> e@ == Fault::CorruptFs(
                "attempted to release allocation not present in reservation ledger"@,
            ),
    {
        let ghost before = self@;
        let ok: bool = match &mut self.work.ledger {
            None => false,
            Some(l) => l.remove_exact(start, length),
        };
        if !ok {
            assert(self@ =~= before);
            return Err(
                LuksError::CorruptFs(
                    "attempted to release allocation not present in reservation ledger",
                ),
            );
        }
        Ok(())
    }

    fn take_runs(&mut self, runs: &[(u64, u64)], reserved: bool) -> (r: Result<()>)
        ensures
            match r {
                Ok(()) => runs_taken(old(self)@.state, runs@, reserved) == Ok::<StateV, Fault>(
                    final(self)@.state,
                ) && final(self)@ == (BatchV { state: final(self)@.state, ..old(self)@ }),
                Err(e) => runs_taken(old(self)@.state, runs@, reserved) == Err::<StateV, Fault>(e@)
                    && final(self)@ == (BatchV { state: final(self)@.state, ..old(self)@ })
                    && runs_half_taken(old(self)@.state, runs@, reserved, final(self)@.state),
            },
    {
        let ghost b0 = self@;
        let n: usize = runs.len();
        let mut i: usize = 0;
        assert(runs@.take(0) =~= Seq::<(u64, u64)>::empty());
        while i < n
            invariant
                i <= n,
                n == runs@.len(),
                b0 == old(self)@,
                runs_taken(b0.state, runs@.take(i as int), reserved) == Ok::<StateV, Fault>(
                    self@.state,
                ),
                self@ == (BatchV { state: self@.state, ..b0 }),
            decreases n - i,
        {
            let (at, len) = runs[i];
            let ghost u = self@.state;
            proof {
                assert(runs@.take(i + 1).drop_last() =~= runs@.take(i as int));
                assert(runs@.take(i + 1).last() == runs@[i as int]);
                if runs_taken(b0.state, runs@.take(i + 1), reserved) is Err {
                    runs_taken_err(b0.state, runs@, reserved, i + 1);
                }
            }
            if len > 0 && !reserved {
                self.record_allocation(at, len)?;
                assert(self@.state == u || self@.state == (StateV {
                    ledger: claim(u.ledger->Some_0, at, len),
                    ..u
                }));
                self.work.allocator.mark_allocated(at, len)?;
            }
            i += 1;
        }
        assert(runs@.take(n as int) =~= runs@);
        Ok(())
    }

    fn find_parent<D: ReadAt>(&mut self, fs: &Btrfs<D>, path: &str) -> (r: Result<Owner>)
        ensures
            match r {
                Ok(o) => parent_found(fs@, old(self)@.parents, path@) == Ok::<
                    (Owner, Seq<(Seq<char>, Owner)>),
                    Fault,
                >((o, final(self)@.parents)) && final(self)@ == (BatchV {
                    parents: final(self)@.parents,
                    ..old(self)@
                }),
                Err(e) => (parent_found(fs@, old(self)@.parents, path@) == Err::<
                    (Owner, Seq<(Seq<char>, Owner)>),
                    Fault,
                >(e@) || (!fs.steady() && e@ is Io)) && final(self)@ == old(self)@,
            },
    {
        let ghost all = parents_of(self.parents@);
        let ghost f = at_path(path@);
        let n: usize = self.parents.len();
        let mut i: usize = 0;
        while i < n
            invariant
                i <= n,
                n == self.parents@.len(),
                self@ == old(self)@,
                all == parents_of(self.parents@),
                f == at_path(path@),
                forall|j: int| 0 <= j < i ==> !f(#[trigger] all[j]),
            decreases n - i,
        {
            assert(all[i as int] == (self.parents@[i as int].0@, self.parents@[i as int].1));
            if text_eq(self.parents[i].0.as_str(), path) {
                proof {
                    first_idx_is(all, f, i as int);
                }
                return Ok(self.parents[i].1);
            }
            i += 1;
        }
        proof {
            first_idx_is(all, f, n as int);
        }
        let x = find_directory(fs, path, "subvolume file creation not yet supported")?;
        let o: Owner = (x.inode.objectid, x.inode.uid, x.inode.gid);
        let name = text(path);
        let ghost before = self.parents@;
        self.parents.push((name, o));
        assert(parents_of(self.parents@) =~= parents_of(before).push((path@, o)));
        Ok(o)
    }

    fn check_name<D: ReadAt>(&self, fs: &Btrfs<D>, dir: u64, name: &str, path: &str) -> (r: Result<()>)
        ensures
            match r {
                Ok(_) => batch_name_free(fs@, self@, dir, name@, path@) is Ok,
                Err(e) => batch_name_free(fs@, self@, dir, name@, path@) == Err::<(), Fault>(e@)
                    || (!fs.steady() && e@ is Io),
            },
    {
        let raw = bytes_of(name);
        let key = Key::new(dir, DIR_ITEM_KEY, name_hash(raw));
        if let Some(d) = find_item_in_tree(fs, &self.work.pending, self.fs_root.0, &key)? {
            let items = parse_dir_entries(d.as_slice())?;
            if find_name(&items, raw) < items.len() {
                return Err(
                    LuksError::AlreadyExists(
                        join5("file '", name, "' already exists in '", path, "'"),
                    ),
                );
            }
        }
        Ok(())
    }

    fn take_index<D: ReadAt>(&mut self, fs: &Btrfs<D>, dir: u64) -> (r: Result<u64>)
        ensures
            match r {
                Ok(i) => index_taken(fs@, old(self)@.next_index, dir) == Ok::<
                    (u64, Map<u64, u64>),
                    Fault,
                >((i, final(self)@.next_index)),
                Err(e) => (index_taken(fs@, old(self)@.next_index, dir) == Err::<
                    (u64, Map<u64, u64>),
                    Fault,
                >(e@) || (!fs.steady() && e@ is Io)) && final(self)@ == old(self)@,
            },
            final(self)@ == (BatchV { next_index: final(self)@.next_index, ..old(self)@ }),
    {
        let known: Option<u64> = match self.next_dir_index.get(&dir) {
            Some(i) => Some(*i),
            None => None,
        };
        let index: u64 = match known {
            Some(i) => i,
            None => fs.next_dir_index(fs.fs_tree().bytenr, dir)?,
        };
        self.next_dir_index.insert(dir, index.saturating_add(1));
        Ok(index)
    }

    fn add_sums<D: ReadAt>(&mut self, fs: &Btrfs<D>, sums: &[(u64, u32)]) -> (r: Result<()>)
        ensures
            exists|seen: bool| #[trigger]
                looked_up(fs.steady(), seen) && match r {
                    Ok(_) => sums_added(
                        fs@,
                        old(self)@.generation,
                        old(self)@.state,
                        old(self)@.csum_root,
                        sums@,
                        seen,
                    ) == Ok::<(StateV, Option<(u64, u8)>), Fault>(
                        (final(self)@.state, final(self)@.csum_root),
                    ),
                    Err(e) => sums_added(
                        fs@,
                        old(self)@.generation,
                        old(self)@.state,
                        old(self)@.csum_root,
                        sums@,
                        seen,
                    ) == Err::<(StateV, Option<(u64, u8)>), Fault>(e@) || (!fs.steady() && e@
                        is Io),
                },
            final(self)@ == (BatchV {
                state: final(self)@.state,
                csum_root: final(self)@.csum_root,
                ..old(self)@
            }),
            r is Err ==> final(self)@.csum_root == old(self)@.csum_root && sums_half_added(
                fs@,
                old(self)@.generation,
                old(self)@.state,
                old(self)@.csum_root,
                sums@,
                final(self)@.state,
            ),
    {
        assert(looked_up(fs.steady(), true));
        assert(!fs.steady() ==> looked_up(fs.steady(), false));
        if sums.len() == 0 {
            return Ok(());
        }
        if let Some(t) = fs.find_root(CSUM_TREE_OBJECTID) {
            let root: (u64, u8) = match self.csum_root {
                Some(r) => r,
                None => (t.bytenr, t.level),
            };
            let items = build_extent_csum_items_from_checksums(fs.superblock().node_size, sums)?;
            let ops = csum_changes(items);
            let to = self.work.apply_all(fs, self.generation, CSUM_TREE_OBJECTID, root, &ops)?;
            self.csum_root = Some(to);
        }
        Ok(())
    }

    fn add_file_internal<D: ReadAt>(&mut self, fs: &Btrfs<D>, f: &WrittenFile) -> (r: Result<u64>)
        ensures
            exists|seen: bool| #[trigger]
                looked_up(fs.steady(), seen) && agrees(
                    fs.steady(),
                    r,
                    file_added(fs@, old(self)@, f@, seen),
                    |ino: u64| (final(self)@, ino),
                ),
            final(self)@.generation == old(self)@.generation,
            final(self)@.started == old(self)@.started,
            r is Err ==> half_added(fs@, old(self)@, f@, final(self)@),
    {
        assert(looked_up(fs.steady(), true));
        let ghost b0 = self@;
        proof {
            runs_untaken(b0.state, f@.runs, f@.reserved);
        }
        if !f.streaming && f.written != f.declared {
            return Err(LuksError::OutOfBounds);
        }
        let size: u64 = if f.streaming {
            f.written
        } else {
            f.declared
        };
        self.take_runs(f.runs, f.reserved)?;
        let ghost b1 = self@;
        let dir = self.find_parent(fs, f.parent)?;
        let ghost b2 = self@;
        proof {
            assert(parents_known(fs@, b0.parents, f.parent@, b2.parents));
            assert(batch_name_free(fs@, b2, dir.0, f.name@, f.parent@) == batch_name_free(
                fs@,
                BatchV { state: b1.state, ..b0 },
                dir.0,
                f.name@,
                f.parent@,
            ));
        }
        self.check_name(fs, dir.0, f.name, f.parent)?;
        let ino: u64 = self.next_ino;
        self.next_ino = ino.saturating_add(1);
        let index: u64 = self.take_index(fs, dir.0)?;
        let total: u64 = total_of(f.runs);
        let inode = build_inode_item(
            self.generation,
            size,
            total,
            FILE_MODE,
            dir.1,
            dir.2,
            1,
            f.sec,
            f.nsec,
        );
        let e = NewEntry {
            generation: self.generation,
            parent: dir.0,
            ino,
            index,
            name: f.name,
            kind: 1,
            sec: f.sec,
            nsec: f.nsec,
            shares: false,
            missing: "parent inode not found in leaf",
        };
        let mut ops = entry_changes(&e, inode);
        push_runs(&mut ops, self.generation, ino, f.runs);
        assert(ops_of(ops@) == file_ops(b0, f@, dir, index));
        let to = self.work.apply_all(fs, self.generation, FS_TREE_OBJECTID, self.fs_root, &ops)?;
        self.fs_root = to;
        push_extents(&mut self.data_extents_to_add, ino, f.runs);
        let ghost b3 = self@;
        let added = self.add_sums(fs, f.sums);
        let ghost seen = choose|seen: bool| #[trigger]
            looked_up(fs.steady(), seen) && match added {
                Ok(_) => sums_added(
                    fs@,
                    b3.generation,
                    b3.state,
                    b3.csum_root,
                    f.sums@,
                    seen,
                ) == Ok::<(StateV, Option<(u64, u8)>), Fault>((self@.state, self@.csum_root)),
                Err(e) => sums_added(
                    fs@,
                    b3.generation,
                    b3.state,
                    b3.csum_root,
                    f.sums@,
                    seen,
                ) == Err::<(StateV, Option<(u64, u8)>), Fault>(e@) || (!fs.steady() && e@ is Io),
            };
        added?;
        self.accumulated_files = self.accumulated_files.saturating_add(1);
        self.accumulated_data_bytes = self.accumulated_data_bytes.saturating_add(size);
        proof {
            let want = file_added(fs@, b0, f@, seen)->Ok_0.0;
            assert(self@ =~= want);
            assert(looked_up(fs.steady(), seen));
        }
        Ok(ino)
    }

    /// Add a file whose data was written through `writer`.
    pub fn add_writer_with_time<D: ReadAt>(
        &mut self,
        fs: &Btrfs<D>,
        writer: &BtrfsFileWriter,
        parent_path: &str,
        name: &str,
        now_sec: u64,
        now_nsec: u32,
    ) -> (r: Result<u64>)
        ensures
            exists|seen: bool| #[trigger]
                looked_up(fs.steady(), seen) && agrees(
                    fs.steady(),
                    r,
                    file_added(
                        fs@,
                        old(self)@,
                        as_file(writer@, parent_path@, name@, now_sec, now_nsec),
                        seen,
                    ),
                    |ino: u64| (final(self)@, ino),
                ),
            final(self)@.generation == old(self)@.generation,
            final(self)@.started == old(self)@.started,
            r is Err ==> half_added(
                fs@,
                old(self)@,
                as_file(writer@, parent_path@, name@, now_sec, now_nsec),
                final(self)@,
            ),
    {
        let f = WrittenFile {
            streaming: writer.is_streaming,
            written: writer.written_bytes,
            declared: writer.size,
            runs: writer.data_runs.as_slice(),
            sums: writer.checksums.as_slice(),
            parent: parent_path,
            name,
            sec: now_sec,
            nsec: now_nsec,
            reserved: true,
        };
        self.add_file_internal(fs, &f)
    }

    /// Add a file whose data was written already.
    pub fn add_file_with_time<D: ReadAt>(
        &mut self,
        fs: &Btrfs<D>,
        is_streaming: bool,
        written_bytes: u64,
        declared_size: u64,
        data_runs: &[(u64, u64)],
        checksums: &[(u64, u32)],
        parent_path: &str,
        name: &str,
        now_sec: u64,
        now_nsec: u32,
    ) -> (r: Result<u64>)
        ensures
            exists|seen: bool| #[trigger]
                looked_up(fs.steady(), seen) && agrees(
                    fs.steady(),
                    r,
                    file_added(
                        fs@,
                        old(self)@,
                        WrittenV {
                            streaming: is_streaming,
                            written: written_bytes,
                            declared: declared_size,
                            runs: data_runs@,
                            sums: checksums@,
                            parent: parent_path@,
                            name: name@,
                            sec: now_sec,
                            nsec: now_nsec,
                            reserved: false,
                        },
                        seen,
                    ),
                    |ino: u64| (final(self)@, ino),
                ),
            final(self)@.generation == old(self)@.generation,
            final(self)@.started == old(self)@.started,
            r is Err ==> half_added(
                fs@,
                old(self)@,
                WrittenV {
                    streaming: is_streaming,
                    written: written_bytes,
                    declared: declared_size,
                    runs: data_runs@,
                    sums: checksums@,
                    parent: parent_path@,
                    name: name@,
                    sec: now_sec,
                    nsec: now_nsec,
                    reserved: false,
                },
                final(self)@,
            ),
    {
        let f = WrittenFile {
            streaming: is_streaming,
            written: written_bytes,
            declared: declared_size,
            runs: data_runs,
            sums: checksums,
            parent: parent_path,
            name,
            sec: now_sec,
            nsec: now_nsec,
            reserved: false,
        };
        self.add_file_internal(fs, &f)
    }

    /// Turn the batch into a transaction, and make it ready for the next file;
    /// `now` is the time in milliseconds. A failure leaves the batch as it was.
    pub fn commit_and_rearm<D: ReadAt>(&mut self, fs: &Btrfs<D>, now: u64) -> (r: Result<
        Transaction,
    >)
        ensures
            exists|fst: bool| #[trigger]
                looked_up(fs.steady(), fst) && tracks(
                    fs.steady(),
                    r,
                    batch_committed(fs@, old(self)@, fst),
                ),
            match r {
                Ok(t) => final(self)@ == rearmed(old(self)@, t@, now),
                Err(_) => final(self)@ == old(self)@,
            },
    {
        let ghost b = self@;
        let mut w = copy_work(&self.work);
        w.ledger = None;
        let mut c = file_changes(fs, self.generation, self.fs_root);
        c.csum_root = self.csum_root;
        c.added = copy_vec(&self.data_extents_to_add);
        assert(c@ == batch_changes(fs@, b));
        assert(w@ == (StateV { ledger: None, ..b.state }));
        let r = converge_and_finalize(fs, c, w);
        proof {
            let fst = choose|fst: bool| #[trigger]
                looked_up(fs.steady(), fst) && tracks(fs.steady(), r, finalized(fs@, c@, w@, fst));
            assert(looked_up(fs.steady(), fst));
        }
        let t = r?;
        if let Some(a) = &t.final_allocator {
            self.work.allocator = a.clone();
            self.work.allocator.unpin_freed();
        }
        self.work.pending = BlockMap::new();
        self.work.add = Vec::new();
        self.work.remove = Vec::new();
        self.work.ledger = Some(IntervalSet::new());
        self.data_extents_to_add = Vec::new();
        self.fs_root = (t.new_fs_tree.bytenr, t.new_fs_tree.level);
        self.csum_root = None;
        self.generation = t.new_generation;
        self.accumulated_files = 0;
        self.accumulated_data_bytes = 0;
        self.start_time = now;
        assert(self@ =~= rearmed(b, t@, now));
        Ok(t)
    }

    /// Turn the batch into a transaction.
    pub fn commit<D: ReadAt>(self, fs: &Btrfs<D>) -> (r: Result<Transaction>)
        ensures
            exists|fst: bool| #[trigger]
                looked_up(fs.steady(), fst) && tracks(
                    fs.steady(),
                    r,
                    batch_committed(fs@, self@, fst),
                ),
    {
        let ghost b = self@;
        let mut w = self.work;
        w.ledger = None;
        let mut c = file_changes(fs, self.generation, self.fs_root);
        c.csum_root = self.csum_root;
        c.added = self.data_extents_to_add;
        assert(c@ == batch_changes(fs@, b));
        assert(w@ == (StateV { ledger: None, ..b.state }));
        converge_and_finalize(fs, c, w)
    }
}

impl FileMark {
    /// The batch that this is a mark of; what a mark does not hold is open.
    pub open spec fn of(self) -> BatchV {
        BatchV {
            state: self.work@,
            fs_root: self.fs_root,
            csum_root: self.csum_root,
            added: self.data_extents_to_add@,
            next_ino: self.next_ino,
            next_index: self.next_dir_index@,
            files: self.accumulated_files,
            bytes: self.accumulated_data_bytes,
            generation: 0,
            parents: Seq::empty(),
            started: 0,
        }
    }
}

/// Whether `now` are the directories known once `path` may have been looked
/// up.
pub open spec fn parents_known(
    fs: FsV,
    before: Seq<(Seq<char>, Owner)>,
    path: Seq<char>,
    now: Seq<(Seq<char>, Owner)>,
) -> bool {
    now == before || (parent_found(fs, before, path) matches Ok(x) && now == x.1)
}

/// Bytes of all `runs`, capped at `u64::MAX`.
pub fn total_of(runs: &[(u64, u64)]) -> (r: u64)
    ensures
        r == runs_len(runs@),
{
    let n: usize = runs.len();
    let mut sum: u64 = 0;
    let mut i: usize = 0;
    assert(runs@.take(0) =~= Seq::<(u64, u64)>::empty());
    while i < n
        invariant
            i <= n,
            n == runs@.len(),
            sum == runs_len(runs@.take(i as int)),
        decreases n - i,
    {
        proof {
            assert(runs@.take(i + 1).drop_last() =~= runs@.take(i as int));
            assert(runs@.take(i + 1).last() == runs@[i as int]);
        }
        sum = sum.saturating_add(runs[i].1);
        i += 1;
    }
    assert(runs@.take(n as int) =~= runs@);
    sum
}

fn push_runs(ops: &mut Vec<TreeOp>, generation: u64, ino: u64, runs: &[(u64, u64)])
    ensures
        ops_of(final(ops)@) == ops_of(old(ops)@) + run_ops(generation, ino, runs@),
{
    let ghost before = ops_of(ops@);
    let n: usize = runs.len();
    let mut offset: u64 = 0;
    let mut i: usize = 0;
    assert(runs@.take(0) =~= Seq::<(u64, u64)>::empty());
    assert(before + run_ops(generation, ino, runs@.take(0)) =~= before);
    while i < n
        invariant
            i <= n,
            n == runs@.len(),
            offset == runs_len(runs@.take(i as int)),
            ops_of(ops@) == before + run_ops(generation, ino, runs@.take(i as int)),
        decreases n - i,
    {
        let (at, len) = runs[i];
        proof {
            assert(runs@.take(i + 1).drop_last() =~= runs@.take(i as int));
            assert(runs@.take(i + 1).last() == runs@[i as int]);
        }
        if len > 0 {
            push_op(
                ops,
                TreeOp::Insert {
                    key: Key::new(ino, EXTENT_DATA_KEY, offset),
                    data: build_regular_file_extent(generation, len, at, len, len),
                },
            );
        }
        offset = offset.saturating_add(len);
        i += 1;
        assert(ops_of(ops@) =~= before + run_ops(generation, ino, runs@.take(i as int)));
    }
    assert(runs@.take(n as int) =~= runs@);
}

fn push_extents(v: &mut Vec<NewExtent>, ino: u64, runs: &[(u64, u64)])
    ensures
        final(v)@ == old(v)@ + run_extents(ino, runs@),
{
    let ghost before = v@;
    let n: usize = runs.len();
    let mut offset: u64 = 0;
    let mut i: usize = 0;
    assert(runs@.take(0) =~= Seq::<(u64, u64)>::empty());
    assert(before + run_extents(ino, runs@.take(0)) =~= before);
    while i < n
        invariant
            i <= n,
            n == runs@.len(),
            offset == runs_len(runs@.take(i as int)),
            v@ == before + run_extents(ino, runs@.take(i as int)),
        decreases n - i,
    {
        let (at, len) = runs[i];
        proof {
            assert(runs@.take(i + 1).drop_last() =~= runs@.take(i as int));
            assert(runs@.take(i + 1).last() == runs@[i as int]);
        }
        if len > 0 {
            v.push((at, len, FS_TREE_OBJECTID, ino, offset));
        }
        offset = offset.saturating_add(len);
        i += 1;
        assert(v@ =~= before + run_extents(ino, runs@.take(i as int)));
    }
    assert(runs@.take(n as int) =~= runs@);
}

} // verus!
