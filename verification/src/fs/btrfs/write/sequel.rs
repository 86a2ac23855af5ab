//! What becomes of a batch: no file that was added is lost before it is committed,
//! and what is done next starts from the volume with all of them.

use vstd::prelude::*;

use crate::error::{Fault, Outcome};
use crate::fs::btrfs::volume::{FsV, VolV};
use crate::fs::btrfs::write::batch::{
    batch_committed, due, file_added, rearmed, uncommitted, BatchV, WrittenV,
};
use crate::fs::btrfs::write::commit::commits;
use crate::fs::btrfs::write::converge::{looked_up, Lookups};
use crate::fs::btrfs::write::ops::{commits_some, failed, flushes, runs};
use crate::fs::btrfs::write::safety::due_in_time;
use crate::fs::btrfs::write::stream::{adds, gives_up, settles};
use crate::fs::btrfs::write::txn::TxnV;

verus! {

/// The volume without its batch.
pub open spec fn without_batch(v: VolV) -> VolV {
    VolV { batch: None, ..v }
}

/// A batch is committed: the volume goes on to `w` by the transaction that the batch
/// comes to.
pub open spec fn batch_goes_through(v: VolV, b: BatchV, w: VolV) -> bool {
    exists|fst: bool, t: TxnV|
        #[trigger] batch_committed(v.fs, b, fst) == Ok::<TxnV, Fault>(t) && #[trigger] commits(
            without_batch(v),
            w,
            Ok(()),
            t,
        )
}

/// Where the batch of a volume has files and committing it succeeds, they were
/// committed, and the batch is gone. While a file is being written nothing is
/// committed.
pub proof fn flush_loses_nothing(v: VolV, b: BatchV, w: VolV, r: Outcome<()>)
    requires
        flushes(v, w, r),
        v.batch == Some(b),
    ensures
        v.writer ==> r is Err && w == v,
        !v.writer && b.files > 0 && r is Ok ==> batch_goes_through(v, b, w) && w.batch is None,
        r is Ok ==> w.batch is None,
{
    if !v.writer && r is Ok && uncommitted(b) {
        let fst = choose|fst: bool| #[trigger]
            looked_up(v.steady, fst) && ((w == without_batch(v)
                && failed(v, r)) || match batch_committed(
                v.fs,
                b,
                fst,
            ) {
                Err(e) => w == without_batch(v) && r == Err::<(), Fault>(e),
                Ok(t) => commits(without_batch(v), w, r, t),
            });
        let t = batch_committed(v.fs, b, fst)->Ok_0;
        assert(commits(without_batch(v), w, Ok(()), t));
    }
}

/// An operation on a volume whose batch has files is done on what the committed
/// batch leaves.
pub proof fn operation_follows_batch(
    v: VolV,
    b: BatchV,
    w: VolV,
    f: spec_fn(FsV, Lookups) -> Outcome<TxnV>,
) -> (x: VolV)
    requires
        runs(v, w, Ok(()), f),
        v.batch == Some(b),
        b.files > 0,
    ensures
        !v.writer,
        batch_goes_through(v, b, x),
        commits_some(x, w, Ok(()), f),
{
    let (x, m) = choose|x: VolV, m: Outcome<()>| #[trigger]
        flushes(v, x, m) && match m {
            Err(e) => w == x && Ok::<(), Fault>(()) == m,
            Ok(_) => commits_some(x, w, Ok(()), f),
        };
    flush_loses_nothing(v, b, x, m);
    x
}

/// A file that is added to a batch stays in it until the batch is due: with the
/// sixteenth file it is committed with the others, and the batch starts anew,
/// without files.
pub proof fn sixteenth_file_commits(
    v: VolV,
    b: BatchV,
    file: WrittenV,
    now: u64,
    w: VolV,
    r: Outcome<u64>,
)
    requires
        adds(v, b, file, now, w, r),
        r is Ok,
        v.batch is None,
    ensures
        exists|seen: bool|
            (#[trigger] file_added(v.fs, b, file, seen)) matches Ok((c, ino)) && {
                &&& r == Ok::<u64, Fault>(ino)
                &&& c.files >= 16 || now - c.started >= 2000 ==> {
                    &&& w.batch matches Some(next) && next.files == 0 && next.bytes == 0
                    &&& exists|x: VolV|
                        #[trigger] batch_goes_through(v, c, x) && w.fs == x.fs
                }
                &&& !(w.batch matches Some(next) && next.files == 0) ==> w == (VolV {
                    batch: Some(c),
                    ..v
                })
            },
{
    let seen = choose|seen: bool| #[trigger]
        looked_up(v.steady, seen) && ((
        failed(v, r)
            && gives_up(v, b, file.runs, file.parent, now, w))
            || match file_added(v.fs, b, file, seen) {
            Err(e) => r == Err::<u64, Fault>(e) && gives_up(
                v,
                b,
                file.runs,
                file.parent,
                now,
                w,
            ),
            Ok((c, ino)) => if due(c, now) {
                settles(v, c, ino, now, w, r)
            } else {
                w == (VolV { batch: Some(c), ..v }) && r == Ok::<u64, Fault>(ino)
            },
        });
    let (c, ino) = file_added(v.fs, b, file, seen)->Ok_0;
    due_in_time(c, now);
    if due(c, now) {
        settled_goes_through(v, c, ino, now, w, r);
    }
}

proof fn settled_goes_through(v: VolV, b: BatchV, ino: u64, now: u64, w: VolV, r: Outcome<u64>)
    requires
        settles(v, b, ino, now, w, r),
        r is Ok,
        v.batch is None,
    ensures
        r == Ok::<u64, Fault>(ino),
        w.batch matches Some(next) && next.files == 0 && next.bytes == 0,
        exists|x: VolV| #[trigger] batch_goes_through(v, b, x) && w.fs == x.fs,
{
    let fst = choose|fst: bool| #[trigger]
        looked_up(v.steady, fst) && ((w == v
            && failed(v, r)) || match batch_committed(v.fs, b, fst) {
            Err(e) => w == v && r == Err::<u64, Fault>(e),
            Ok(t) => exists|x: VolV, m: Outcome<()>| #[trigger]
                commits(v, x, m, t) && match m {
                    Err(e) => w == x && r == Err::<u64, Fault>(e),
                    Ok(_) => w == (VolV { batch: Some(rearmed(b, t, now)), ..x }) && r == Ok::<
                        u64,
                        Fault,
                    >(ino),
                },
        });
    let t = batch_committed(v.fs, b, fst)->Ok_0;
    let (x, m) = choose|x: VolV, m: Outcome<()>| #[trigger]
        commits(v, x, m, t) && match m {
            Err(e) => w == x && r == Err::<u64, Fault>(e),
            Ok(_) => w == (VolV { batch: Some(rearmed(b, t, now)), ..x }) && r == Ok::<
                u64,
                Fault,
            >(ino),
        };
    assert(without_batch(v) == v);
    assert(commits(without_batch(v), x, Ok(()), t));
    assert(batch_goes_through(v, b, x));
}

} // verus!
