//! Deleting files, and directories with all they hold.

use vstd::prelude::*;

use crate::device::WriteAt;
use crate::error::{outcome, text, Fault, LuksError, Outcome, Result};
use crate::fs::btrfs::files::{disk_item, entry_in, resolved};
use crate::fs::btrfs::listing::listing;
use crate::fs::btrfs::tree::{Key, FS_TREE_OBJECTID};
use crate::fs::btrfs::volume::{Btrfs, FsV, VolV};
use crate::fs::btrfs::write::change::commits_clear;
use crate::fs::btrfs::write::commit::{breaks_off, commit_script, commits, template_of};
use crate::fs::btrfs::write::converge::{possible, Lookups};
use crate::fs::btrfs::write::ops::{commits_some, failed, flushes};
use crate::fs::btrfs::write::removal::{
    concerned, deleted_is_gone_on_device, doomed_at, doomed_name, fit_to_delete,
};
use crate::fs::btrfs::write::txn::delete::file_deleted;
use crate::fs::btrfs::write::txn::{Transaction, TxnV};
use crate::fs::path::{any_dots, has_dots, pieces, trim_end, trim_slashes, trimmed, without_trailing};
use crate::fs::{entries_of, DirEntry, EntryV, FileType};
use crate::text::{join3, utf8};

verus! {

/// How many directories deep a deletion may reach. No real tree is so deep; the
/// bound turns a directory that holds one of those above it into an error.
pub const MAX_DELETE_DEPTH: u32 = 1024;

/// A volume `y` on the way from `v`, with the outcome `m` so far: it is on the same
/// device, on which nothing was undone.
pub open spec fn midway(v: VolV, y: VolV, m: Outcome<()>) -> bool {
    &&& y.len == v.len
    &&& y.steady == v.steady
    &&& v.history.len() <= y.history.len()
}

/// The transaction that deletes the file or empty directory at `path`.
pub open spec fn removal(path: Seq<char>, sec: u64, nsec: u32) -> spec_fn(FsV, Lookups) -> Outcome<
    TxnV,
> {
    |fs: FsV, seen: Lookups| file_deleted(fs, path, sec, nsec, seen)
}

/// Deleting what is at `path`, at most `left - 1` directories deep, may end in
/// `r` and leave `w`. A directory is emptied first, one transaction for each
/// file in it.
#[verifier::opaque]
pub open spec fn erases(
    v: VolV,
    path: Seq<char>,
    sec: u64,
    nsec: u32,
    left: nat,
    w: VolV,
    r: Outcome<()>,
) -> bool
    decreases left, 0nat,
{
    if left == 0 {
        w == v && r == Err::<(), Fault>(
            Fault::CorruptFs("directory delete recursed past a sane depth — likely a cycle"@),
        )
    } else if trimmed(path).len() == 0 {
        w == v && r == Err::<(), Fault>(Fault::IsADirectory("/"@))
    } else {
        (w == v && failed(v, r)) || match resolved(v.fs, v.fs.fs_tree, path) {
            Err(e) => w == v && r == Err::<(), Fault>(e),
            Ok(x) => if x.inode.kind() == FileType::Directory && x.tree.objectid
                == FS_TREE_OBJECTID {
                match listing(v.fs, x.tree.bytenr, x.inode.objectid) {
                    Err(e) => w == v && r == Err::<(), Fault>(e),
                    Ok(kids) => exists|y: VolV, m: Outcome<()>| #[trigger]
                        midway(v, y, m) && empties(
                            v,
                            without_trailing(path),
                            kids,
                            sec,
                            nsec,
                            (left - 1) as nat,
                            y,
                            m,
                        ) && match m {
                            Err(_) => w == y && r == m,
                            Ok(_) => commits_some(y, w, r, removal(path, sec, nsec)),
                        },
                }
            } else {
                commits_some(v, w, r, removal(path, sec, nsec))
            },
        }
    }
}

/// Deleting `kids`, entries of the directory at `base`, one after the other
/// may end in `r` and leave `w`.
#[verifier::opaque]
pub open spec fn empties(
    v: VolV,
    base: Seq<char>,
    kids: Seq<EntryV>,
    sec: u64,
    nsec: u32,
    left: nat,
    w: VolV,
    r: Outcome<()>,
) -> bool
    decreases left, kids.len() + 1,
{
    if kids.len() == 0 {
        w == v && r == Ok::<(), Fault>(())
    } else {
        exists|y: VolV, m: Outcome<()>| #[trigger]
            midway(v, y, m) && empties(v, base, kids.drop_last(), sec, nsec, left, y, m) && match m {
                Err(_) => w == y && r == m,
                Ok(_) => erases(y, base + "/"@ + kids.last().name, sec, nsec, left, w, r),
            }
    }
}

proof fn removal_stays(v: VolV, w: VolV, r: Outcome<()>, path: Seq<char>, sec: u64, nsec: u32)
    requires
        commits_some(v, w, r, removal(path, sec, nsec)),
    ensures
        midway(v, w, r),
{
    let seen = choose|seen: Lookups| #[trigger]
        possible(v.steady, seen) && ((w == v && failed(v, r)) || match removal(path, sec, nsec)(
            v.fs,
            seen,
        ) {
            Err(e) => w == v && r == Err::<(), Fault>(e),
            Ok(t) => commits(v, w, r, t),
        });
    if let Ok(t) = removal(path, sec, nsec)(v.fs, seen) {
        if let Ok(template) = template_of(v.fs) {
            if w != v && r is Err {
                let k = choose|k: int|
                    breaks_off(v, w, r->Err_0, commit_script(v.fs, v.len, t, template), k);
                assert(breaks_off(v, w, r->Err_0, commit_script(v.fs, v.len, t, template), k));
            }
        }
    }
}

/// Deleting what is at a path stays on the device.
proof fn erases_stays(
    v: VolV,
    path: Seq<char>,
    sec: u64,
    nsec: u32,
    left: nat,
    w: VolV,
    r: Outcome<()>,
)
    requires
        erases(v, path, sec, nsec, left, w, r),
    ensures
        midway(v, w, r),
{
    reveal(erases);
    reveal(empties);
    if w != v {
        let x = resolved(v.fs, v.fs.fs_tree, path)->Ok_0;
        if x.inode.kind() == FileType::Directory && x.tree.objectid == FS_TREE_OBJECTID {
            let kids = listing(v.fs, x.tree.bytenr, x.inode.objectid)->Ok_0;
            let (y, m) = choose|y: VolV, m: Outcome<()>| #[trigger]
                midway(v, y, m) && empties(
                    v,
                    without_trailing(path),
                    kids,
                    sec,
                    nsec,
                    (left - 1) as nat,
                    y,
                    m,
                ) && match m {
                    Err(_) => w == y && r == m,
                    Ok(_) => commits_some(y, w, r, removal(path, sec, nsec)),
                };
            if m is Ok {
                removal_stays(y, w, r, path, sec, nsec);
            }
        } else {
            removal_stays(v, w, r, path, sec, nsec);
        }
    }
}

/// Deleting the entries of a directory stays on the device.
proof fn empties_stays(
    v: VolV,
    base: Seq<char>,
    kids: Seq<EntryV>,
    sec: u64,
    nsec: u32,
    left: nat,
    w: VolV,
    r: Outcome<()>,
)
    requires
        empties(v, base, kids, sec, nsec, left, w, r),
    ensures
        midway(v, w, r),
{
    reveal(empties);
    reveal(erases);
    if kids.len() > 0 {
        let (y, m) = choose|y: VolV, m: Outcome<()>| #[trigger]
            midway(v, y, m) && empties(v, base, kids.drop_last(), sec, nsec, left, y, m)
                && match m {
                Err(_) => w == y && r == m,
                Ok(_) => erases(y, base + "/"@ + kids.last().name, sec, nsec, left, w, r),
            };
        if m is Ok {
            erases_stays(y, base + "/"@ + kids.last().name, sec, nsec, left, w, r);
        }
    }
}

proof fn empties_step(
    v: VolV,
    base: Seq<char>,
    kids: Seq<EntryV>,
    sec: u64,
    nsec: u32,
    left: nat,
    i: int,
    y: VolV,
    w: VolV,
    r: Outcome<()>,
)
    requires
        0 <= i < kids.len(),
        empties(v, base, kids.take(i), sec, nsec, left, y, Ok(())),
        erases(y, base + "/"@ + kids[i].name, sec, nsec, left, w, r),
    ensures
        empties(v, base, kids.take(i + 1), sec, nsec, left, w, r),
        r is Err ==> empties(v, base, kids, sec, nsec, left, w, r),
    decreases kids.len() - i,
{
    reveal(empties);
    reveal(erases);
    assert(kids.take(i + 1).drop_last() =~= kids.take(i));
    assert(kids.take(i + 1).last() == kids[i]);
    empties_stays(v, base, kids.take(i), sec, nsec, left, y, Ok(()));
    assert(midway(v, y, Ok(())));
    if r is Err {
        empties_fault(v, base, kids, sec, nsec, left, i + 1, w, r);
    }
}

proof fn empties_fault(
    v: VolV,
    base: Seq<char>,
    kids: Seq<EntryV>,
    sec: u64,
    nsec: u32,
    left: nat,
    n: int,
    w: VolV,
    r: Outcome<()>,
)
    requires
        0 <= n <= kids.len(),
        r is Err,
        empties(v, base, kids.take(n), sec, nsec, left, w, r),
    ensures
        empties(v, base, kids, sec, nsec, left, w, r),
    decreases kids.len() - n,
{
    if n == kids.len() {
        assert(kids.take(n) =~= kids);
    } else {
        assert(kids.take(n + 1).drop_last() =~= kids.take(n));
        assert(empties(v, base, kids.take(n + 1), sec, nsec, left, w, r)) by {
            reveal(empties);
            reveal(erases);
            empties_stays(v, base, kids.take(n), sec, nsec, left, w, r);
            assert(midway(v, w, r));
        }
        empties_fault(v, base, kids, sec, nsec, left, n + 1, w, r);
    }
}

/// Deleting what is at `path` may end in `r` and leave `w`. A path with `.` or
/// `..` in it is refused, whatever it stands for.
pub open spec fn deletes(v: VolV, path: Seq<char>, sec: u64, nsec: u32, w: VolV, r: Outcome<()>) -> bool {
    exists|x: VolV, m: Outcome<()>| #[trigger]
        flushes(v, x, m) && match m {
            Err(_) => w == x && r == m,
            Ok(_) => if any_dots(pieces(path)) {
                w == x && r == Err::<(), Fault>(
                    Fault::UnsupportedFsFeature(
                        "delete path containing '.' or '..' components"@,
                    ),
                )
            } else {
                erases(x, path, sec, nsec, (MAX_DELETE_DEPTH + 1) as nat, w, r)
            },
        }
}

impl<D: WriteAt> Btrfs<D> {
    fn remove_one(&mut self, path: &str, sec: u64, nsec: u32) -> (r: Result<()>)
        ensures
            commits_some(
                old(self).state(),
                final(self).state(),
                outcome(r),
                removal(path@, sec, nsec),
            ),
    {
        let made = Transaction::delete_file(self, path, sec, nsec);
        self.finish(made, Ghost(removal(path@, sec, nsec)))
    }

    fn empty_out(
        &mut self,
        base: &str,
        kids: &Vec<DirEntry>,
        sec: u64,
        nsec: u32,
        left: u32,
    ) -> (r: Result<()>)
        ensures
            empties(
                old(self).state(),
                base@,
                entries_of(kids@),
                sec,
                nsec,
                left as nat,
                final(self).state(),
                outcome(r),
            ),
        decreases left, 1nat,
    {
        let ghost v = self.state();
        let ghost all = entries_of(kids@);
        let n: usize = kids.len();
        let mut i: usize = 0;
        proof {
            assert(all.take(0) =~= Seq::<EntryV>::empty());
            assert(empties(v, base@, all.take(0), sec, nsec, left as nat, v, Ok(()))) by {
                reveal(empties);
                reveal(erases);
            }
        }
        while i < n
            invariant
                i <= n,
                n == kids@.len(),
                v == old(self).state(),
                all == entries_of(kids@),
                empties(
                    v,
                    base@,
                    all.take(i as int),
                    sec,
                    nsec,
                    left as nat,
                    self.state(),
                    Ok(()),
                ),
            decreases n - i,
        {
            let ghost y = self.state();
            let path = join3(base, "/", kids[i].name.as_str());
            assert(all[i as int].name == kids@[i as int].name@);
            let r = self.delete_file_at_depth(path.as_str(), sec, nsec, left);
            proof {
                empties_step(
                    v,
                    base@,
                    all,
                    sec,
                    nsec,
                    left as nat,
                    i as int,
                    y,
                    self.state(),
                    outcome(r),
                );
            }
            r?;
            i += 1;
        }
        assert(all.take(n as int) =~= all);
        Ok(())
    }

    fn delete_file_at_depth(&mut self, path: &str, sec: u64, nsec: u32, left: u32) -> (r: Result<
        (),
    >)
        ensures
            erases(
                old(self).state(),
                path@,
                sec,
                nsec,
                left as nat,
                final(self).state(),
                outcome(r),
            ),
        decreases left, 0nat,
    {
        reveal(erases);
        reveal(empties);
        let ghost v = self.state();
        if left == 0 {
            return Err(
                LuksError::CorruptFs(
                    "directory delete recursed past a sane depth — likely a cycle",
                ),
            );
        }
        if trim_slashes(path).unicode_len() == 0 {
            return Err(LuksError::IsADirectory(text("/")));
        }
        let x = self.resolve_no_follow(self.fs_tree(), path)?;
        if x.inode.file_type().is_dir() && x.tree.objectid == FS_TREE_OBJECTID {
            let kids = self.list_dir_by_inode(x.tree.bytenr, x.inode.objectid)?;
            let emptied = self.empty_out(trim_end(path), &kids, sec, nsec, left - 1);
            proof {
                empties_stays(
                    v,
                    without_trailing(path@),
                    entries_of(kids@),
                    sec,
                    nsec,
                    (left - 1) as nat,
                    self.state(),
                    outcome(emptied),
                );
            }
            assert(midway(v, self.state(), outcome(emptied)));
            emptied?;
        }
        self.remove_one(path, sec, nsec)
    }

    /// Delete the file or directory at `path`. A directory is emptied first,
    /// depth first, with one transaction for each file: where one of them
    /// fails, what was deleted before stays deleted.
    pub fn delete_file(&mut self, path: &str, now_sec: u64, now_nsec: u32) -> (r: Result<()>)
        ensures
            deletes(
                old(self).state(),
                path@,
                now_sec,
                now_nsec,
                final(self).state(),
                outcome(r),
            ),
    {
        let ghost v = self.state();
        let flushed = self.commit_active_batch();
        assert(flushes(v, self.state(), outcome(flushed)));
        flushed?;
        if has_dots(path) {
            return Err(
                LuksError::UnsupportedFsFeature(
                    text("delete path containing '.' or '..' components"),
                ),
            );
        }
        self.delete_file_at_depth(path, now_sec, now_nsec, MAX_DELETE_DEPTH + 1)
    }
}

/// The deletion of the file or empty directory at `path` was the last thing
/// committed, on the volume `y`.
pub open spec fn last_removed(
    y: VolV,
    path: Seq<char>,
    sec: u64,
    nsec: u32,
    seen: Lookups,
    w: VolV,
) -> bool {
    file_deleted(y.fs, path, sec, nsec, seen) matches Ok(t) && commits(y, w, Ok(()), t)
}

proof fn removal_was_committed(y: VolV, path: Seq<char>, sec: u64, nsec: u32, w: VolV)
    requires
        commits_some(y, w, Ok(()), removal(path, sec, nsec)),
    ensures
        exists|seen: Lookups| last_removed(y, path, sec, nsec, seen, w),
{
    let r = Ok::<(), Fault>(());
    let f = removal(path, sec, nsec);
    let seen = choose|seen: Lookups| #[trigger]
        possible(y.steady, seen) && ((w == y && failed(y, r)) || match f(y.fs, seen) {
            Err(e) => w == y && r == Err::<(), Fault>(e),
            Ok(t) => commits(y, w, r, t),
        });
    assert(last_removed(y, path, sec, nsec, seen, w));
}

/// Whether `w` came of committing the deletion at `path` on `y`.
spec fn came_of(y: VolV, path: Seq<char>, sec: u64, nsec: u32, w: VolV) -> bool {
    commits_some(y, w, Ok(()), removal(path, sec, nsec))
}

proof fn emptied_then_removed(
    v: VolV,
    path: Seq<char>,
    sec: u64,
    nsec: u32,
    left: nat,
    w: VolV,
)
    requires
        erases(v, path, sec, nsec, left, w, Ok(())),
    ensures
        exists|y: VolV| came_of(y, path, sec, nsec, w),
{
    reveal(erases);
    reveal(empties);
    let r = Ok::<(), Fault>(());
    let x = resolved(v.fs, v.fs.fs_tree, path)->Ok_0;
    if x.inode.kind() == FileType::Directory && x.tree.objectid == FS_TREE_OBJECTID {
        let kids = listing(v.fs, x.tree.bytenr, x.inode.objectid)->Ok_0;
        let (y, m) = choose|y: VolV, m: Outcome<()>| #[trigger]
            midway(v, y, m) && empties(
                v,
                without_trailing(path),
                kids,
                sec,
                nsec,
                (left - 1) as nat,
                y,
                m,
            ) && match m {
                Err(_) => w == y && r == m,
                Ok(_) => commits_some(y, w, r, removal(path, sec, nsec)),
            };
        assert(came_of(y, path, sec, nsec, w));
    } else {
        assert(came_of(v, path, sec, nsec, w));
    }
}

/// Where deleting what is at `path` succeeds, the last thing it does is to
/// commit the deletion of the file or emptied directory there.
pub proof fn erased_was_removed(
    v: VolV,
    path: Seq<char>,
    sec: u64,
    nsec: u32,
    left: nat,
    w: VolV,
)
    requires
        erases(v, path, sec, nsec, left, w, Ok(())),
    ensures
        exists|y: VolV, seen: Lookups| last_removed(y, path, sec, nsec, seen, w),
{
    emptied_then_removed(v, path, sec, nsec, left, w);
    let y = choose|y: VolV| came_of(y, path, sec, nsec, w);
    removal_was_committed(y, path, sec, nsec, w);
}

/// What was deleted is gone from the volume that `path` was last deleted on: the
/// name does not lead to it any more, and no item of it is left; a name that
/// stood for it alone is not found.
///
/// The last deletion was done on a volume in order, and no device write of its
/// commit damages another.
pub proof fn erased_is_gone(
    v: VolV,
    path: Seq<char>,
    sec: u64,
    nsec: u32,
    left: nat,
    w: VolV,
    k: Key,
)
    requires
        erases(v, path, sec, nsec, left, w, Ok(())),
        forall|y: VolV, seen: Lookups| #[trigger]
            last_removed(y, path, sec, nsec, seen, w) ==> fit_to_delete(
                y.fs,
                path,
                sec,
                nsec,
                seen,
            ) && commits_clear(y.fs, y.len, file_deleted(y.fs, path, sec, nsec, seen)->Ok_0),
    ensures
        exists|y: VolV, seen: Lookups| #[trigger]
            last_removed(y, path, sec, nsec, seen, w) && ({
                let d = doomed_at(y.fs, path);
                let name = utf8(doomed_name(path));
                &&& entry_in(w.fs, w.fs.fs_tree.bytenr, d.dir, name) matches Ok(found)
                    && (found matches Some(e) ==> e.location.objectid != d.ino)
                &&& k.objectid == d.ino ==> disk_item(w.fs, w.fs.fs_tree.bytenr, k) == Ok::<
                    Option<Seq<u8>>,
                    Fault,
                >(None)
                &&& !concerned(d, name, k) ==> disk_item(w.fs, w.fs.fs_tree.bytenr, k)
                    == disk_item(y.fs, y.fs.fs_tree.bytenr, k)
            }),
{
    erased_was_removed(v, path, sec, nsec, left, w);
    let (y, seen) = choose|y: VolV, seen: Lookups| last_removed(y, path, sec, nsec, seen, w);
    deleted_is_gone_on_device(y.fs, y.len, path, sec, nsec, seen, k);
    assert(last_removed(y, path, sec, nsec, seen, w));
}

} // verus!
