//! Writing a file's data, and finishing or giving up the file.

use vstd::prelude::*;

use crate::device::WriteAt;
use crate::error::{modelled, outcome, tracks, Fault, LuksError, Outcome, Result};
use crate::fs::btrfs::volume::{Btrfs, VolV};
use crate::fs::btrfs::write::batch::{
    batch_committed, due, file_added, opened_with, parents_known, rearmed, runs_len, total_of,
    uncommitted, Batch, BatchV, Owner, WrittenV,
};
use crate::fs::btrfs::write::commit::{commit_transaction, commits, transfers};
use crate::fs::btrfs::write::converge::looked_up;
use crate::fs::btrfs::write::cow::agrees;
use crate::fs::btrfs::write::file::{as_file, begins, with_space, BtrfsFileWriter, WriterV};
use crate::fs::btrfs::write::interval_set::without;
use crate::fs::btrfs::write::ops::{ended, failed, flushes};
use crate::fs::btrfs::write::pieces::{lay_runs, spans_script, write_spans, Layout, LayoutV};
use crate::fs::btrfs::write::space::{alloc_run, free_extent, BgV};
use crate::fs::btrfs::write::txn::data::{disk_len, whole_sectors};
use crate::fs::btrfs::write::workspace::StateV;
use crate::seqs::copy_vec;

verus! {

/// Runs taken from free space.
#[verifier::ext_equal]
pub struct Placed {
    pub space: Seq<BgV>,
    pub runs: Seq<(u64, u64)>,
    /// Whether the space ran out.
    pub full: bool,
}

/// Take `need` bytes from `space`, as runs behind `runs`.
pub open spec fn placed(space: Seq<BgV>, runs: Seq<(u64, u64)>, need: u64, sector: u32) -> Placed
    decreases need,
{
    if need == 0 {
        Placed { space, runs, full: false }
    } else {
        match alloc_run(space, need, sector) {
            Some((at, len, rest)) => if 0 < len <= need {
                placed(rest, runs.push((at, len)), (need - len) as u64, sector)
            } else {
                Placed { space, runs, full: true }
            },
            None => Placed { space, runs, full: true },
        }
    }
}

/// Where the data up to byte `end` of a file goes. A file whose size was
/// declared has all its space; any other takes more as it grows.
pub open spec fn stretched(wr: WriterV, end: int, sector: u32) -> Placed {
    if wr.streaming && end > runs_len(wr.runs) {
        placed(wr.space, wr.runs, disk_len(end - runs_len(wr.runs), sector), sector)
    } else {
        Placed { space: wr.space, runs: wr.runs, full: false }
    }
}

/// A volume whose batch has followed a writer that took more space.
pub open spec fn followed(v: VolV, wr: WriterV, end: int, space: Seq<BgV>) -> VolV {
    if wr.streaming && end > runs_len(wr.runs) {
        with_space(v, space)
    } else {
        v
    }
}

/// How `data` is laid out behind what a writer has written.
pub open spec fn laid(wr: WriterV, data: Seq<u8>, sector: u32) -> LayoutV {
    lay_runs(
        LayoutV { writes: Seq::empty(), sums: wr.sums, tail: wr.tail },
        wr.runs,
        0,
        wr.written,
        data,
        sector as int,
    )
}

/// A writer once `data` is written.
pub open spec fn advanced(wr: WriterV, data: Seq<u8>, sector: u32) -> WriterV {
    let end = (wr.written + data.len()) as u64;
    let l = laid(wr, data, sector);
    WriterV {
        sums: l.sums,
        tail: l.tail,
        written: end,
        size: if wr.streaming {
            end
        } else {
            wr.size
        },
        ..wr
    }
}

/// Writing `data` behind what the writer `a` has written may end in `r`, leave
/// the volume `w` and the writer `b`. A transfer that fails leaves the writer
/// as it was, but for space that was set aside.
pub open spec fn writes_chunk(
    v: VolV,
    a: WriterV,
    data: Seq<u8>,
    w: VolV,
    b: WriterV,
    r: Outcome<()>,
) -> bool {
    let sector = v.fs.sb.sector_size;
    let end = a.written + data.len();
    if end > u64::MAX || (!a.streaming && end > a.size) {
        w == v && b == a && r == Err::<(), Fault>(Fault::OutOfBounds)
    } else {
        let p = stretched(a, end, sector);
        let c = WriterV { runs: p.runs, space: p.space, ..a };
        if p.full {
            w == v && b == c && r == Err::<(), Fault>(Fault::FilesystemFull)
        } else {
            &&& transfers(
                followed(v, a, end, p.space),
                w,
                r,
                spans_script(v.fs.chunks, laid(c, data, sector).writes),
            )
            &&& b == if r is Ok {
                advanced(c, data, sector)
            } else {
                c
            }
        }
    }
}

impl BtrfsFileWriter {
    /// Set space for `need` more bytes aside.
    fn stretch(&mut self, need: u64, sector: u32) -> (r: Result<()>)
        requires
            sector > 0,
        ensures
            ({
                let p = placed(old(self)@.space, old(self)@.runs, need, sector);
                &&& final(self)@ == (WriterV { space: p.space, runs: p.runs, ..old(self)@ })
                &&& r is Ok == !p.full
                &&& r matches Err(e) ==> e@ == Fault::FilesystemFull
            }),
    {
        let ghost a = self@;
        let ghost p = placed(a.space, a.runs, need, sector);
        let mut more: u64 = need;
        while more > 0
            invariant
                sector > 0,
                a == old(self)@,
                p == placed(a.space, a.runs, need, sector),
                p == placed(self@.space, self@.runs, more, sector),
                self@ == (WriterV { space: self@.space, runs: self@.runs, ..a }),
            decreases more,
        {
            match self.allocator.allocate_data_chunk(more, sector) {
                Ok((at, len)) => {
                    self.data_runs.push((at, len));
                    more -= len;
                },
                Err(e) => {
                    return Err(e);
                },
            }
        }
        Ok(())
    }
}

/// The bookkeeping of a batch once the data in `runs` is given up. What cannot
/// be freed is left alone.
pub open spec fn let_go(s: StateV, runs: Seq<(u64, u64)>) -> StateV
    decreases runs.len(),
{
    if runs.len() == 0 {
        s
    } else {
        let t = let_go(s, runs.drop_last());
        let (at, len) = runs.last();
        StateV {
            space: match free_extent(t.space, at, len) {
                Ok(x) => x,
                Err(_) => t.space,
            },
            ledger: match t.ledger {
                None => None,
                Some(l) => Some(
                    if len == 0 || at + len > u64::MAX {
                        l
                    } else {
                        without(l, at, (at + len) as u64)
                    },
                ),
            },
            ..t
        }
    }
}

/// Committing what is left in `b`, with failures passed over, may leave `w`.
pub open spec fn salvages(v: VolV, b: BatchV, now: u64, w: VolV) -> bool {
    let kept = VolV { batch: Some(b), ..v };
    if uncommitted(b) {
        exists|fst: bool| #[trigger]
            looked_up(v.steady, fst) && ((w == kept && !v.steady) || match batch_committed(
                v.fs,
                b,
                fst,
            ) {
                Err(_) => w == kept,
                Ok(t) => exists|x: VolV, m: Outcome<()>| #[trigger]
                    commits(v, x, m, t) && w == (VolV {
                        batch: Some(rearmed(b, t, now)),
                        ..x
                    }),
            })
    } else {
        w == kept
    }
}

/// Giving a file of `b` up may leave `w`; directories looked up on the way
/// stay known.
pub open spec fn gives_up(v: VolV, b: BatchV, runs: Seq<(u64, u64)>, parent: Seq<char>, now: u64, w: VolV) -> bool {
    exists|parents: Seq<(Seq<char>, Owner)>| #[trigger]
        parents_known(v.fs, b.parents, parent, parents) && salvages(
            v,
            BatchV { parents, state: let_go(b.state, runs), ..b },
            now,
            w,
        )
}

/// Committing the full batch `b`, whose last file has inode number `ino`, may
/// end in `r` and leave `w`.
pub open spec fn settles(v: VolV, b: BatchV, ino: u64, now: u64, w: VolV, r: Outcome<u64>) -> bool {
    exists|fst: bool| #[trigger]
        looked_up(v.steady, fst) && ((w == v && failed(v, r)) || match batch_committed(
            v.fs,
            b,
            fst,
        ) {
            Err(e) => w == v && r == Err::<u64, Fault>(e),
            Ok(t) => exists|x: VolV, m: Outcome<()>| #[trigger]
                commits(v, x, m, t) && match m {
                    Err(e) => w == x && r == Err::<u64, Fault>(e),
                    Ok(_) => w == (VolV { batch: Some(rearmed(b, t, now)), ..x }) && r == Ok::<
                        u64,
                        Fault,
                    >(ino),
                },
        })
}

/// Adding `file` to the batch `b` may end in `r` and leave `w`.
pub open spec fn adds(v: VolV, b: BatchV, file: WrittenV, now: u64, w: VolV, r: Outcome<u64>) -> bool {
    exists|seen: bool| #[trigger]
        looked_up(v.steady, seen) && ((failed(v, r) && gives_up(
            v,
            b,
            file.runs,
            file.parent,
            now,
            w,
        )) || match file_added(v.fs, b, file, seen) {
            Err(e) => r == Err::<u64, Fault>(e) && gives_up(
                v,
                b,
                file.runs,
                file.parent,
                now,
                w,
            ),
            Ok((c, ino)) => if due(c, now) {
                settles(v, c, ino, now, w, r)
            } else {
                w == (VolV { batch: Some(c), ..v }) && r == Ok::<u64, Fault>(ino)
            },
        })
}

/// Finishing the file of the writer `a` may end in `r` and leave `w`.
pub open spec fn finishes(
    v: VolV,
    a: WriterV,
    file: WrittenV,
    now: u64,
    w: VolV,
    r: Outcome<u64>,
) -> bool {
    let idle = VolV { writer: false, batch: None, ..v };
    match v.batch {
        Some(b) => adds(idle, b, file, now, w, r),
        None => (w == idle && failed(v, r)) || match opened_with(v.fs, a.space, now) {
            Err(e) => w == idle && r == Err::<u64, Fault>(e),
            Ok(b) => adds(idle, b, file, now, w, r),
        },
    }
}

/// Giving up the file of the writer `a` may leave `w`.
pub open spec fn abandons(v: VolV, a: WriterV, now: u64, w: VolV) -> bool {
    let idle = VolV { writer: false, batch: None, ..v };
    match v.batch {
        Some(b) => salvages(idle, BatchV { state: let_go(b.state, a.runs), ..b }, now, w),
        None => w == idle,
    }
}

/// Writing all of a new file's `data` may end in `r`, leave the volume `w` and
/// the writer `b`.
pub open spec fn feeds(
    v: VolV,
    a: WriterV,
    data: Seq<u8>,
    w: VolV,
    b: WriterV,
    r: Outcome<()>,
) -> bool {
    if data.len() == 0 {
        w == v && b == a && r == Ok::<(), Fault>(())
    } else {
        writes_chunk(v, a, data, w, b, r)
    }
}

/// Finishing a file and committing the batch may end in `r` and leave `w`.
pub open spec fn seals(v: VolV, a: WriterV, file: WrittenV, now: u64, w: VolV, r: Outcome<u64>) -> bool {
    exists|x: VolV, m: Outcome<u64>| #[trigger]
        finishes(v, a, file, now, x, m) && match m {
            Err(_) => w == x && r == m,
            Ok(_) => flushes(x, w, ended(r)) && (r is Ok ==> r == m),
        }
}

/// Writing all of a new file's `data` and sealing the file may end in `r` and
/// leave `w`. Where the data cannot be written, the file is given up.
pub open spec fn fills(
    v: VolV,
    a: WriterV,
    parent: Seq<char>,
    name: Seq<char>,
    data: Seq<u8>,
    sec: u64,
    nsec: u32,
    now: u64,
    w: VolV,
    r: Outcome<u64>,
) -> bool {
    exists|y: VolV, b: WriterV, m: Outcome<()>| #[trigger]
        feeds(v, a, data, y, b, m) && match m {
            Err(e) => abandons(y, b, now, w) && r == Err::<u64, Fault>(e),
            Ok(_) => seals(y, b, as_file(b, parent, name, sec, nsec), now, w, r),
        }
}

/// Creating a file with `data` in it may end in `r` and leave `w`.
pub open spec fn creates(
    v: VolV,
    parent: Seq<char>,
    name: Seq<char>,
    data: Seq<u8>,
    sec: u64,
    nsec: u32,
    now: u64,
    w: VolV,
    r: Outcome<u64>,
) -> bool {
    exists|x: VolV, a: Outcome<WriterV>| #[trigger]
        begins(v, data.len() as u64, now, x, a) && match a {
            Err(e) => w == x && r == Err::<u64, Fault>(e),
            Ok(a) => fills(x, a, parent, name, data, sec, nsec, now, w, r),
        }
}

/// A file that was just begun has nothing written.
pub proof fn begun_is_empty(v: VolV, size: u64, now: u64, w: VolV, a: WriterV)
    requires
        begins(v, size, now, w, Ok(a)),
    ensures
        a.written == 0,
        a.sums.len() == 0,
        a.tail.len() == 0,
        a.size == size,
        !a.streaming,
        w.writer,
{
}

impl Batch {
    /// Give up the data in `runs`.
    fn drop_runs(&mut self, runs: &Vec<(u64, u64)>)
        ensures
            final(self)@ == (BatchV { state: let_go(old(self)@.state, runs@), ..old(self)@ }),
    {
        let ghost b0 = self@;
        let n: usize = runs.len();
        let mut i: usize = 0;
        assert(runs@.take(0) =~= Seq::<(u64, u64)>::empty());
        while i < n
            invariant
                i <= n,
                n == runs@.len(),
                b0 == old(self)@,
                self@ == (BatchV { state: let_go(b0.state, runs@.take(i as int)), ..b0 }),
            decreases n - i,
        {
            let (at, len) = runs[i];
            let ghost t = self@.state;
            let _ = self.work.allocator.free_data(at, len);
            if let Some(l) = &mut self.work.ledger {
                l.remove(at, len);
            }
            assert(runs@.take(i + 1).drop_last() =~= runs@.take(i as int));
            i += 1;
        }
        assert(runs@.take(n as int) =~= runs@);
    }
}

impl<D: WriteAt> Btrfs<D> {
    /// Write `data` behind what `writer` has written.
    pub fn write_chunk(&mut self, writer: &mut BtrfsFileWriter, data: &[u8]) -> (r: Result<()>)
        requires
            old(self)@.sb.wf(),
            old(writer)@.tail.len() < old(self)@.sb.sector_size,
        ensures
            writes_chunk(
                old(self).state(),
                old(writer)@,
                data@,
                final(self).state(),
                final(writer)@,
                outcome(r),
            ),
            final(self)@.sb == old(self)@.sb,
            final(writer)@.tail.len() < final(self)@.sb.sector_size,
    {
        let ghost v = self.state();
        let ghost a = writer@;
        let sector: u32 = self.superblock().sector_size;
        let n: usize = data.len();
        if writer.written_bytes > u64::MAX - n as u64 {
            return Err(LuksError::OutOfBounds);
        }
        let end: u64 = writer.written_bytes + n as u64;
        if writer.is_streaming {
            let have: u64 = total_of(writer.data_runs.as_slice());
            if end > have {
                let need: u64 = whole_sectors(end - have, sector);
                writer.stretch(need, sector)?;
                self.set_space(&writer.allocator);
            }
        } else if end > writer.size {
            return Err(LuksError::OutOfBounds);
        }
        let ghost c = writer@;
        let ghost x = self.state();
        let mut plan = Layout {
            writes: Vec::new(),
            sums: copy_vec(&writer.checksums),
            tail: copy_vec(&writer.tail_buf),
        };
        assert(plan@ =~= (LayoutV { writes: Seq::empty(), sums: c.sums, tail: c.tail }));
        plan.over_runs(&writer.data_runs, writer.written_bytes, data, sector as usize);
        let r = write_spans(self, &plan.writes);
        assert(transfers(
            x,
            self.state(),
            outcome(r),
            spans_script(v.fs.chunks, laid(c, data@, sector).writes),
        ));
        r?;
        writer.checksums = plan.sums;
        writer.tail_buf = plan.tail;
        writer.written_bytes = end;
        if writer.is_streaming {
            writer.size = end;
        }
        Ok(())
    }

    /// Commit what is left in a batch, with failures passed over, and put the
    /// batch back.
    fn salvage(&mut self, batch: Batch, now: u64)
        ensures
            salvages(old(self).state(), batch@, now, final(self).state()),
    {
        let ghost v = self.state();
        let ghost b = batch@;
        let mut kept = batch;
        assert(looked_up(v.steady, true));
        if kept.has_uncommitted_files() {
            let made = kept.commit_and_rearm(self, now);
            let ghost fst = choose|fst: bool| #[trigger]
                looked_up(v.steady, fst) && tracks(v.steady, made, batch_committed(v.fs, b, fst));
            assert(looked_up(v.steady, fst));
            if let Ok(t) = made {
                let r = commit_transaction(self, t);
                assert(commits(v, self.state(), outcome(r), t@));
            }
        }
        self.put_batch(kept);
    }

    fn settle(&mut self, batch: Batch, ino: u64, now: u64) -> (r: Result<u64>)
        ensures
            settles(old(self).state(), batch@, ino, now, final(self).state(), outcome(r)),
    {
        let ghost v = self.state();
        let ghost b = batch@;
        let mut kept = batch;
        let made = kept.commit_and_rearm(self, now);
        let ghost fst = choose|fst: bool| #[trigger]
            looked_up(v.steady, fst) && tracks(v.steady, made, batch_committed(v.fs, b, fst));
        assert(looked_up(v.steady, fst));
        let t = made?;
        let r = commit_transaction(self, t);
        assert(commits(v, self.state(), outcome(r), t@));
        r?;
        self.put_batch(kept);
        Ok(ino)
    }

    /// Finish a file: give it a name. `now` is the time in milliseconds; the
    /// file's own times are given as seconds and nanoseconds.
    pub fn finish_file(
        &mut self,
        writer: BtrfsFileWriter,
        parent_path: &str,
        name: &str,
        now_sec: u64,
        now_nsec: u32,
        now: u64,
    ) -> (r: Result<u64>)
        ensures
            finishes(
                old(self).state(),
                writer@,
                as_file(writer@, parent_path@, name@, now_sec, now_nsec),
                now,
                final(self).state(),
                outcome(r),
            ),
    {
        let ghost v0 = self.state();
        let ghost file = as_file(writer@, parent_path@, name@, now_sec, now_nsec);
        self.set_writing(false);
        let mut batch = match self.take_batch() {
            Some(b) => b,
            None => {
                let a = writer.allocator.clone();
                Batch::open_with_allocator(self, a, now)?
            },
        };
        let ghost v = self.state();
        let ghost b = batch@;
        let mark = batch.mark();
        let added = batch.add_writer_with_time(
            self,
            &writer,
            parent_path,
            name,
            now_sec,
            now_nsec,
        );
        let ghost c = batch@;
        let ghost seen = choose|seen: bool| #[trigger]
            looked_up(v.steady, seen) && agrees(
                v.steady,
                added,
                file_added(v.fs, b, file, seen),
                |ino: u64| (c, ino),
            );
        assert(looked_up(v.steady, seen));
        match added {
            Ok(ino) => {
                if batch.should_commit(now) {
                    self.settle(batch, ino, now)
                } else {
                    self.put_batch(batch);
                    Ok(ino)
                }
            },
            Err(e) => {
                batch.rollback(mark);
                assert(batch@ =~= (BatchV { parents: c.parents, ..b }));
                batch.drop_runs(&writer.data_runs);
                assert(batch@ =~= (BatchV {
                    parents: c.parents,
                    state: let_go(b.state, writer@.runs),
                    ..b
                }));
                self.salvage(batch, now);
                assert(parents_known(v.fs, b.parents, file.parent, c.parents));
                assert(gives_up(v, b, file.runs, file.parent, now, self.state()));
                Err(e)
            },
        }
    }

    /// Give a file up. `now` is the time in milliseconds.
    pub fn abandon_file(&mut self, writer: BtrfsFileWriter, now: u64)
        ensures
            abandons(old(self).state(), writer@, now, final(self).state()),
    {
        self.set_writing(false);
        if let Some(b) = self.take_batch() {
            let mut batch = b;
            batch.drop_runs(&writer.data_runs);
            self.salvage(batch, now);
        }
    }

    fn feed(&mut self, writer: &mut BtrfsFileWriter, data: &[u8]) -> (r: Result<()>)
        requires
            old(self)@.sb.wf(),
            old(writer)@.tail.len() < old(self)@.sb.sector_size,
        ensures
            feeds(
                old(self).state(),
                old(writer)@,
                data@,
                final(self).state(),
                final(writer)@,
                outcome(r),
            ),
    {
        if data.len() > 0 {
            self.write_chunk(writer, data)
        } else {
            Ok(())
        }
    }

    fn seal(
        &mut self,
        writer: BtrfsFileWriter,
        parent_path: &str,
        name: &str,
        now_sec: u64,
        now_nsec: u32,
        now: u64,
    ) -> (r: Result<u64>)
        ensures
            seals(
                old(self).state(),
                writer@,
                as_file(writer@, parent_path@, name@, now_sec, now_nsec),
                now,
                final(self).state(),
                outcome(r),
            ),
    {
        let ghost v = self.state();
        let ghost file = as_file(writer@, parent_path@, name@, now_sec, now_nsec);
        let done = self.finish_file(writer, parent_path, name, now_sec, now_nsec, now);
        let ghost x = self.state();
        let ghost m = outcome(done);
        assert(finishes(v, writer@, file, now, x, m));
        let ino: u64 = done?;
        let r = self.commit_active_batch();
        assert(flushes(x, self.state(), outcome(r)));
        r?;
        Ok(ino)
    }

    fn fill(
        &mut self,
        writer: BtrfsFileWriter,
        parent_path: &str,
        name: &str,
        data: &[u8],
        now_sec: u64,
        now_nsec: u32,
        now: u64,
    ) -> (r: Result<u64>)
        requires
            old(self)@.sb.wf(),
            writer@.tail.len() < old(self)@.sb.sector_size,
        ensures
            fills(
                old(self).state(),
                writer@,
                parent_path@,
                name@,
                data@,
                now_sec,
                now_nsec,
                now,
                final(self).state(),
                outcome(r),
            ),
    {
        let ghost v = self.state();
        let ghost a = writer@;
        let mut open = writer;
        let fed = self.feed(&mut open, data);
        let ghost y = self.state();
        let ghost b = open@;
        assert(feeds(v, a, data@, y, b, outcome(fed)));
        match fed {
            Err(e) => {
                self.abandon_file(open, now);
                Err(e)
            },
            Ok(_) => self.seal(open, parent_path, name, now_sec, now_nsec, now),
        }
    }

    /// Create a regular file with `data` in it; returns its inode number. `now`
    /// is the time in milliseconds; the file's own times are given as seconds
    /// and nanoseconds.
    pub fn create_file_with_data(
        &mut self,
        parent_dir_path: &str,
        filename: &str,
        data: &[u8],
        now_sec: u64,
        now_nsec: u32,
        now: u64,
    ) -> (r: Result<u64>)
        requires
            old(self)@.sb.wf(),
        ensures
            creates(
                old(self).state(),
                parent_dir_path@,
                filename@,
                data@,
                now_sec,
                now_nsec,
                now,
                final(self).state(),
                outcome(r),
            ),
    {
        let ghost v = self.state();
        let n: usize = data.len();
        let begun = self.begin_file(n as u64, now);
        let ghost x = self.state();
        let ghost m = modelled(begun);
        assert(begins(v, data@.len() as u64, now, x, m));
        let writer = begun?;
        let ghost a = writer@;
        proof {
            begun_is_empty(v, data@.len() as u64, now, x, a);
        }
        let r = self.fill(writer, parent_dir_path, filename, data, now_sec, now_nsec, now);
        assert(fills(
            x,
            a,
            parent_dir_path@,
            filename@,
            data@,
            now_sec,
            now_nsec,
            now,
            self.state(),
            outcome(r),
        ));
        r
    }
}

} // verus!
