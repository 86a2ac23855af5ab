//! Operations on a mounted volume, each in a transaction of its own.
//!
//! What an operation may come to is stated as a relation between the volume
//! before it and its outcome: on an unsteady device a transfer may fail at any
//! point, and a tree that need not exist may be missed.

use vstd::prelude::*;

use crate::device::WriteAt;
use crate::error::{outcome, text, tracks, Fault, LuksError, Outcome, Result};
use crate::fs::btrfs::chunk::with_chunk;
use crate::fs::btrfs::files::{inode_of, resolved};
use crate::fs::btrfs::tree::FS_TREE_OBJECTID;
use crate::fs::btrfs::volume::{Btrfs, FsV, VolV};
use crate::fs::btrfs::write::batch::{batch_committed, uncommitted};
use crate::fs::btrfs::write::chunk_alloc::chunk_allocated;
use crate::fs::btrfs::write::commit::{commit_transaction, commits};
use crate::fs::btrfs::write::converge::{looked_up, possible, Lookups};
use crate::fs::btrfs::write::txn::create::{directory_created, directory_created_in, file_created};
use crate::fs::btrfs::write::txn::data::file_written;
use crate::fs::btrfs::write::txn::mtime::touched;
use crate::fs::btrfs::write::txn::rename::renamed;
use crate::fs::btrfs::write::txn::{tracks_some, Transaction, TxnV};

verus! {

/// The device failed.
pub open spec fn failed<T>(v: VolV, r: Outcome<T>) -> bool {
    !v.steady && r == Err::<T, Fault>(Fault::Io)
}

/// An outcome without its value.
pub open spec fn ended<T>(r: Outcome<T>) -> Outcome<()> {
    match r {
        Ok(_) => Ok(()),
        Err(e) => Err(e),
    }
}

/// Committing the batch of `v`, if there is one, may end in `r` and leave `w`.
pub open spec fn flushes(v: VolV, w: VolV, r: Outcome<()>) -> bool {
    let bare = VolV { batch: None, ..v };
    if v.writer {
        w == v && r == Err::<(), Fault>(
            Fault::CorruptFs("attempted to commit active batch while a file writer is open"@),
        )
    } else {
        match v.batch {
            None => w == v && r == Ok::<(), Fault>(()),
            Some(b) => if uncommitted(b) {
                exists|fst: bool| #[trigger]
                    looked_up(v.steady, fst) && ((w == bare && failed(v, r))
                        || match batch_committed(v.fs, b, fst) {
                        Err(e) => w == bare && r == Err::<(), Fault>(e),
                        Ok(t) => commits(bare, w, r, t),
                    })
            } else {
                w == bare && r == Ok::<(), Fault>(())
            },
        }
    }
}

/// Committing a transaction that `f` describes may end in `r` and leave `w`.
pub open spec fn commits_some(
    v: VolV,
    w: VolV,
    r: Outcome<()>,
    f: spec_fn(FsV, Lookups) -> Outcome<TxnV>,
) -> bool {
    exists|seen: Lookups| #[trigger]
        possible(v.steady, seen) && ((w == v && failed(v, r)) || match f(v.fs, seen) {
            Err(e) => w == v && r == Err::<(), Fault>(e),
            Ok(t) => commits(v, w, r, t),
        })
}

/// Committing a transaction that `f` describes, which also gives a number, may
/// end in `r` and leave `w`.
pub open spec fn commits_with(
    v: VolV,
    w: VolV,
    r: Outcome<u64>,
    f: spec_fn(FsV, Lookups) -> Outcome<(TxnV, u64)>,
) -> bool {
    exists|seen: Lookups| #[trigger]
        possible(v.steady, seen) && ((w == v && failed(v, r)) || match f(v.fs, seen) {
            Err(e) => w == v && r == Err::<u64, Fault>(e),
            Ok((t, n)) => commits(v, w, ended(r), t) && (r is Ok ==> r == Ok::<u64, Fault>(n)),
        })
}

/// Committing the batch and then a transaction that `f` describes may end in
/// `r` and leave `w`.
pub open spec fn runs(
    v: VolV,
    w: VolV,
    r: Outcome<()>,
    f: spec_fn(FsV, Lookups) -> Outcome<TxnV>,
) -> bool {
    exists|x: VolV, m: Outcome<()>| #[trigger]
        flushes(v, x, m) && match m {
            Err(e) => w == x && r == m,
            Ok(_) => commits_some(x, w, r, f),
        }
}

/// The same, for a transaction that also gives a number.
pub open spec fn runs_with(
    v: VolV,
    w: VolV,
    r: Outcome<u64>,
    f: spec_fn(FsV, Lookups) -> Outcome<(TxnV, u64)>,
) -> bool {
    exists|x: VolV, m: Outcome<()>| #[trigger]
        flushes(v, x, m) && match m {
            Err(e) => w == x && r == Err::<u64, Fault>(e),
            Ok(_) => commits_with(x, w, r, f),
        }
}

/// Allocating a data chunk in a volume without a batch may end in `r` and
/// leave `w`.
pub open spec fn adds_chunk(v: VolV, reserved: Seq<(u64, u64)>, w: VolV, r: Outcome<u64>) -> bool {
    exists|seen: Lookups| #[trigger]
        possible(v.steady, seen) && ((w == v && failed(v, r)) || match chunk_allocated(
            v.fs,
            reserved,
            seen,
        ) {
            Err(e) => w == v && r == Err::<u64, Fault>(e),
            Ok((t, c)) => commits(
                VolV { fs: FsV { chunks: with_chunk(v.fs.chunks, c), ..v.fs }, ..v },
                w,
                ended(r),
                t,
            ) && (r is Ok ==> r == Ok::<u64, Fault>(c.logical)),
        })
}

/// Committing a batch that there may be, before a chunk is allocated, may end
/// in `r` and leave `w`.
pub open spec fn flushes_any(v: VolV, w: VolV, r: Outcome<()>) -> bool {
    if v.batch is Some {
        flushes(v, w, r)
    } else {
        w == v && r == Ok::<(), Fault>(())
    }
}

/// Allocating a data chunk, with its metadata kept clear of `reserved`, may
/// end in `r` and leave `w`.
pub open spec fn takes_chunk(v: VolV, reserved: Seq<(u64, u64)>, w: VolV, r: Outcome<u64>) -> bool {
    exists|x: VolV, m: Outcome<()>| #[trigger]
        flushes_any(v, x, m) && match m {
            Err(e) => w == x && r == Err::<u64, Fault>(e),
            Ok(_) => adds_chunk(x, reserved, w, r),
        }
}

/// Allocating a chunk and then committing a transaction that `f` describes may
/// end in `r` and leave `w`.
pub open spec fn retries(
    v: VolV,
    w: VolV,
    r: Outcome<()>,
    f: spec_fn(FsV, Lookups) -> Outcome<TxnV>,
) -> bool {
    exists|x: VolV, m: Outcome<u64>| #[trigger]
        takes_chunk(v, Seq::empty(), x, m) && match m {
            Err(e) => w == x && r == Err::<(), Fault>(e),
            Ok(_) => commits_some(x, w, r, f),
        }
}

/// Committing a transaction that `f` describes may end in `r` and leave `w`;
/// where there is no room, a chunk is allocated and the transaction is tried
/// once more.
pub open spec fn persists(
    v: VolV,
    w: VolV,
    r: Outcome<()>,
    f: spec_fn(FsV, Lookups) -> Outcome<TxnV>,
) -> bool {
    exists|seen: Lookups| #[trigger]
        possible(v.steady, seen) && ((w == v && failed(v, r)) || match f(v.fs, seen) {
            Err(Fault::FilesystemFull) => retries(v, w, r, f),
            Err(e) => w == v && r == Err::<(), Fault>(e),
            Ok(t) => commits(v, w, r, t),
        })
}

/// Committing the batch and then a transaction that `f` describes, with a
/// chunk allocated where there is no room, may end in `r` and leave `w`.
pub open spec fn runs_persistently(
    v: VolV,
    w: VolV,
    r: Outcome<()>,
    f: spec_fn(FsV, Lookups) -> Outcome<TxnV>,
) -> bool {
    exists|x: VolV, m: Outcome<()>| #[trigger]
        flushes(v, x, m) && match m {
            Err(e) => w == x && r == m,
            Ok(_) => persists(x, w, r, f),
        }
}

/// The transaction that sets the times of the file at `path`.
pub open spec fn touched_at(fs: FsV, path: Seq<char>, sec: u64, nsec: u32, seen: Lookups) -> Outcome<
    TxnV,
> {
    match resolved(fs, fs.fs_tree, path) {
        Err(e) => Err(e),
        Ok(x) => if x.tree.objectid != FS_TREE_OBJECTID {
            Err(Fault::UnsupportedFsFeature("btrfs subvolume write not yet supported"@))
        } else {
            touched(fs, x.inode.objectid, sec, nsec, seen)
        },
    }
}

/// The transaction that creates a directory in the directory with inode number
/// `parent`, which lends it its owner.
pub open spec fn directory_created_by(
    fs: FsV,
    parent: u64,
    name: Seq<char>,
    sec: u64,
    nsec: u32,
    seen: Lookups,
) -> Outcome<(TxnV, u64)> {
    match inode_of(fs, fs.fs_tree.bytenr, parent) {
        Err(e) => Err(e),
        Ok(i) => directory_created_in(fs, parent, i.uid, i.gid, name, sec, nsec, seen),
    }
}

/// A commit keeps the geometry of the volume.
pub proof fn commit_keeps_geometry(v: VolV, w: VolV, r: Outcome<()>, t: TxnV)
    requires
        commits(v, w, r, t),
    ensures
        w.fs.sb.sector_size == v.fs.sb.sector_size,
        w.fs.sb.node_size == v.fs.sb.node_size,
        w.fs.sb.wf() == v.fs.sb.wf(),
        w.steady == v.steady,
        w.writer == v.writer,
        w.batch == v.batch,
{
}

/// Committing the batch keeps the geometry of the volume.
pub proof fn flush_keeps_geometry(v: VolV, w: VolV, r: Outcome<()>)
    requires
        flushes(v, w, r),
    ensures
        w.fs.sb.sector_size == v.fs.sb.sector_size,
        w.fs.sb.wf() == v.fs.sb.wf(),
        w.steady == v.steady,
        w.writer == v.writer,
{
}

/// Allocating a chunk keeps the geometry of the volume.
pub proof fn chunk_keeps_geometry(v: VolV, reserved: Seq<(u64, u64)>, w: VolV, r: Outcome<u64>)
    requires
        takes_chunk(v, reserved, w, r),
    ensures
        w.fs.sb.sector_size == v.fs.sb.sector_size,
        w.fs.sb.wf() == v.fs.sb.wf(),
        w.steady == v.steady,
        w.writer == v.writer,
{
    let (x, m) = choose|x: VolV, m: Outcome<()>| #[trigger]
        flushes_any(v, x, m) && match m {
            Err(e) => w == x && r == Err::<u64, Fault>(e),
            Ok(_) => adds_chunk(x, reserved, w, r),
        };
    if v.batch is Some {
        flush_keeps_geometry(v, x, m);
    }
}

impl<D: WriteAt> Btrfs<D> {
    /// Commit the batch of uncommitted files, if there is one.
    pub fn commit_active_batch(&mut self) -> (r: Result<()>)
        ensures
            flushes(old(self).state(), final(self).state(), outcome(r)),
    {
        let ghost v = self.state();
        assert(looked_up(v.steady, true));
        if self.is_writing() {
            return Err(
                LuksError::CorruptFs(
                    "attempted to commit active batch while a file writer is open",
                ),
            );
        }
        match self.take_batch() {
            None => {
                assert(self.state() =~= v);
                Ok(())
            },
            Some(b) => {
                if !b.has_uncommitted_files() {
                    return Ok(());
                }
                let made = b.commit(self);
                let ghost fst = choose|fst: bool| #[trigger]
                    looked_up(self.steady(), fst) && tracks(
                        self.steady(),
                        made,
                        batch_committed(self@, b@, fst),
                    );
                assert(looked_up(v.steady, fst));
                let t = made?;
                let r = commit_transaction(self, t);
                r
            },
        }
    }

    /// Drop the batch of uncommitted files, if there is one, without committing
    /// it; returns whether there was one.
    ///
    /// This is for a device whose state cannot be trusted any more: its space
    /// accounting is only true once the commit has gone through.
    pub fn discard_active_batch(&mut self) -> (r: bool)
        ensures
            r == (old(self).state().batch is Some),
            final(self).state() == (VolV { batch: None, writer: false, ..old(self).state() }),
    {
        self.set_writing(false);
        self.take_batch().is_some()
    }

    pub(crate) fn finish(&mut self, made: Result<Transaction>, Ghost(f): Ghost<
        spec_fn(FsV, Lookups) -> Outcome<TxnV>,
    >) -> (r: Result<()>)
        requires
            tracks_some(old(self).steady(), made, |seen: Lookups| f(old(self)@, seen)),
        ensures
            commits_some(old(self).state(), final(self).state(), outcome(r), f),
    {
        let ghost v = self.state();
        let ghost seen = choose|seen: Lookups| #[trigger]
            possible(v.steady, seen) && tracks(v.steady, made, f(v.fs, seen));
        assert(possible(v.steady, seen));
        let t = made?;
        let r = commit_transaction(self, t);
        r
    }

    fn finish_with(&mut self, made: Result<(Transaction, u64)>, Ghost(f): Ghost<
        spec_fn(FsV, Lookups) -> Outcome<(TxnV, u64)>,
    >) -> (r: Result<u64>)
        requires
            tracks_some(old(self).steady(), made, |seen: Lookups| f(old(self)@, seen)),
        ensures
            commits_with(old(self).state(), final(self).state(), outcome(r), f),
    {
        let ghost v = self.state();
        let ghost seen = choose|seen: Lookups| #[trigger]
            possible(v.steady, seen) && tracks(v.steady, made, f(v.fs, seen));
        assert(possible(v.steady, seen));
        let (t, n) = made?;
        let r = commit_transaction(self, t);
        r?;
        Ok(n)
    }

    /// Set the modification time of the file at `path`.
    pub fn set_mtime(&mut self, path: &str, mtime_sec: u64, mtime_nsec: u32) -> (r: Result<()>)
        ensures
            runs(
                old(self).state(),
                final(self).state(),
                outcome(r),
                |fs: FsV, seen: Lookups| touched_at(fs, path@, mtime_sec, mtime_nsec, seen),
            ),
    {
        let ghost v = self.state();
        let ghost f = |fs: FsV, seen: Lookups|
            touched_at(fs, path@, mtime_sec, mtime_nsec, seen);
        let flushed = self.commit_active_batch();
        assert(flushes(v, self.state(), outcome(flushed)));
        flushed?;
        let made = self.touch_at(path, mtime_sec, mtime_nsec);
        self.finish(made, Ghost(f))
    }

    fn touch_at(&self, path: &str, sec: u64, nsec: u32) -> (r: Result<Transaction>)
        ensures
            tracks_some(
                self.steady(),
                r,
                |seen: Lookups| touched_at(self@, path@, sec, nsec, seen),
            ),
    {
        assert(possible(self.steady(), Lookups { csum: true, fst: true, shape: true }));
        let x = self.resolve_no_follow(self.fs_tree(), path)?;
        if x.tree.objectid != FS_TREE_OBJECTID {
            return Err(
                LuksError::UnsupportedFsFeature(text("btrfs subvolume write not yet supported")),
            );
        }
        Transaction::update_inode_mtime(self, x.inode.objectid, sec, nsec)
    }

    /// Create an empty regular file.
    pub fn create_file(&mut self, parent_dir_path: &str, filename: &str, now_sec: u64, now_nsec: u32) -> (r:
        Result<()>)
        ensures
            runs(
                old(self).state(),
                final(self).state(),
                outcome(r),
                |fs: FsV, seen: Lookups|
                    file_created(fs, parent_dir_path@, filename@, now_sec, now_nsec, seen),
            ),
    {
        let ghost v = self.state();
        let ghost f = |fs: FsV, seen: Lookups|
            file_created(fs, parent_dir_path@, filename@, now_sec, now_nsec, seen);
        let flushed = self.commit_active_batch();
        assert(flushes(v, self.state(), outcome(flushed)));
        flushed?;
        let made = Transaction::create_empty_file(
            self,
            parent_dir_path,
            filename,
            now_sec,
            now_nsec,
        );
        self.finish(made, Ghost(f))
    }

    /// Create a directory; returns its inode number.
    pub fn create_directory(&mut self, parent_path: &str, name: &str, now_sec: u64, now_nsec: u32) -> (r:
        Result<u64>)
        ensures
            runs_with(
                old(self).state(),
                final(self).state(),
                outcome(r),
                |fs: FsV, seen: Lookups|
                    directory_created(fs, parent_path@, name@, now_sec, now_nsec, seen),
            ),
    {
        let ghost v = self.state();
        let ghost f = |fs: FsV, seen: Lookups|
            directory_created(fs, parent_path@, name@, now_sec, now_nsec, seen);
        let flushed = self.commit_active_batch();
        assert(flushes(v, self.state(), outcome(flushed)));
        flushed?;
        let made = Transaction::create_directory(self, parent_path, name, now_sec, now_nsec);
        self.finish_with(made, Ghost(f))
    }

    /// Create a directory in the directory with inode number `parent_ino`;
    /// returns its inode number.
    pub fn create_directory_in_dir(
        &mut self,
        parent_ino: u64,
        name: &str,
        now_sec: u64,
        now_nsec: u32,
    ) -> (r: Result<u64>)
        ensures
            runs_with(
                old(self).state(),
                final(self).state(),
                outcome(r),
                |fs: FsV, seen: Lookups|
                    directory_created_by(fs, parent_ino, name@, now_sec, now_nsec, seen),
            ),
    {
        let ghost v = self.state();
        let ghost f = |fs: FsV, seen: Lookups|
            directory_created_by(fs, parent_ino, name@, now_sec, now_nsec, seen);
        let flushed = self.commit_active_batch();
        assert(flushes(v, self.state(), outcome(flushed)));
        flushed?;
        let made = self.directory_by(parent_ino, name, now_sec, now_nsec);
        self.finish_with(made, Ghost(f))
    }

    fn directory_by(&self, parent_ino: u64, name: &str, sec: u64, nsec: u32) -> (r: Result<
        (Transaction, u64),
    >)
        ensures
            tracks_some(
                self.steady(),
                r,
                |seen: Lookups| directory_created_by(self@, parent_ino, name@, sec, nsec, seen),
            ),
    {
        assert(possible(self.steady(), Lookups { csum: true, fst: true, shape: true }));
        let i = self.read_inode(self.fs_tree().bytenr, parent_ino)?;
        Transaction::create_directory_in_dir(self, parent_ino, i.uid, i.gid, name, sec, nsec)
    }

    /// Rename or move a file.
    pub fn rename(
        &mut self,
        old_parent: &str,
        old_name: &str,
        new_parent: &str,
        new_name: &str,
        now_sec: u64,
        now_nsec: u32,
    ) -> (r: Result<()>)
        ensures
            runs(
                old(self).state(),
                final(self).state(),
                outcome(r),
                |fs: FsV, seen: Lookups|
                    renamed(
                        fs,
                        old_parent@,
                        old_name@,
                        new_parent@,
                        new_name@,
                        now_sec,
                        now_nsec,
                        seen,
                    ),
            ),
    {
        let ghost v = self.state();
        let ghost f = |fs: FsV, seen: Lookups|
            renamed(
                fs,
                old_parent@,
                old_name@,
                new_parent@,
                new_name@,
                now_sec,
                now_nsec,
                seen,
            );
        let flushed = self.commit_active_batch();
        assert(flushes(v, self.state(), outcome(flushed)));
        flushed?;
        let made = Transaction::rename(
            self,
            old_parent,
            old_name,
            new_parent,
            new_name,
            now_sec,
            now_nsec,
        );
        self.finish(made, Ghost(f))
    }

    /// Allocate a data chunk; returns its logical address.
    pub fn allocate_data_chunk(&mut self) -> (r: Result<u64>)
        ensures
            takes_chunk(old(self).state(), Seq::empty(), final(self).state(), outcome(r)),
    {
        let none: Vec<(u64, u64)> = Vec::new();
        assert(none@ =~= Seq::<(u64, u64)>::empty());
        self.allocate_data_chunk_excluding(none.as_slice())
    }

    /// Allocate a data chunk, with its metadata kept clear of the `reserved`
    /// ranges; returns its logical address.
    pub fn allocate_data_chunk_excluding(&mut self, reserved: &[(u64, u64)]) -> (r: Result<u64>)
        ensures
            takes_chunk(old(self).state(), reserved@, final(self).state(), outcome(r)),
    {
        let ghost v = self.state();
        if self.active_batch().is_some() {
            let flushed = self.commit_active_batch();
            assert(flushes_any(v, self.state(), outcome(flushed)));
            flushed?;
        } else {
            assert(flushes_any(v, v, Ok(())));
        }
        let ghost w = self.state();
        let made = Transaction::allocate_data_chunk_excluding(self, reserved);
        let ghost seen = choose|seen: Lookups| #[trigger]
            possible(w.steady, seen) && tracks(
                w.steady,
                made,
                chunk_allocated(w.fs, reserved@, seen),
            );
        assert(possible(w.steady, seen));
        let (t, chunk) = made?;
        let logical: u64 = chunk.logical;
        self.add_chunk(chunk);
        let r = commit_transaction(self, t);
        r?;
        Ok(logical)
    }

    /// Write `data` into the regular file at `path`.
    pub fn write_file(&mut self, path: &str, data: &[u8], now_sec: u64, now_nsec: u32) -> (r: Result<
        (),
    >)
        requires
            old(self)@.sb.wf(),
        ensures
            runs_persistently(
                old(self).state(),
                final(self).state(),
                outcome(r),
                |fs: FsV, seen: Lookups|
                    file_written(fs, path@, data@, now_sec, now_nsec, seen),
            ),
    {
        let ghost v = self.state();
        let ghost f = |fs: FsV, seen: Lookups|
            file_written(fs, path@, data@, now_sec, now_nsec, seen);
        let flushed = self.commit_active_batch();
        assert(flushes(v, self.state(), outcome(flushed)));
        proof {
            flush_keeps_geometry(v, self.state(), outcome(flushed));
        }
        flushed?;
        let ghost w = self.state();
        let made = Transaction::write_file_data(self, path, data, now_sec, now_nsec);
        let ghost seen = choose|seen: Lookups| #[trigger]
            possible(w.steady, seen) && tracks(w.steady, made, f(w.fs, seen));
        assert(possible(w.steady, seen));
        match made {
            Ok(t) => commit_transaction(self, t),
            Err(LuksError::FilesystemFull) => {
                let taken = self.allocate_data_chunk();
                assert(takes_chunk(w, Seq::empty(), self.state(), outcome(taken)));
                proof {
                    chunk_keeps_geometry(w, Seq::empty(), self.state(), outcome(taken));
                }
                let _ = taken?;
                let again = Transaction::write_file_data(self, path, data, now_sec, now_nsec);
                self.finish(again, Ghost(f))
            },
            Err(e) => Err(e),
        }
    }
}

} // verus!
