//! A deleted file is not found along its path any more.

use vstd::prelude::*;

use crate::error::Fault;
use crate::fs::btrfs::files::{
    child_of, disk_item, entry_in, entry_key, inode_of, resolved, top_of, trail, trail_err,
    Located,
};
use crate::fs::btrfs::inode::{dir_entries, has_name, DirItemV, Inode};
use crate::fs::btrfs::tree::ROOT_ITEM_KEY;
use crate::fs::btrfs::volume::FsV;
use crate::fs::btrfs::write::change::commits_clear;
use crate::fs::btrfs::write::commit::committed;
use crate::fs::btrfs::write::converge::{finalized, Lookups};
use crate::fs::btrfs::write::removal::{
    deleted_is_gone_on_device, deleted_keeps_kinds, deleted_keeps_names, doomed_at, doomed_name,
    fit_to_delete,
};
use crate::fs::btrfs::write::txn::delete::file_deleted;
use crate::fs::path::{components, names, parent_part, parent_then_name, trimmed};
use crate::fs::FileType;
use crate::seqs::first_idx_props;
use crate::text::utf8;

verus! {

/// A way along `steps` that goes down in the default subvolume, and through no
/// entry that leads to another one.
pub open spec fn goes_down(fs: FsV, path: Seq<char>, steps: Seq<Seq<char>>) -> bool
    decreases steps.len(),
{
    match top_of(fs, fs.fs_tree) {
        Err(_) => false,
        Ok(top) => {
            &&& trail(fs, top, path, steps) is Ok
            &&& steps.len() > 0 ==> {
                let at = trail(fs, top, path, steps.drop_last())->Ok_0.last();
                &&& goes_down(fs, path, steps.drop_last())
                &&& steps.last() != ".."@
                &&& entry_in(
                    fs,
                    fs.fs_tree.bytenr,
                    at.inode.objectid,
                    utf8(steps.last()),
                ) matches Ok(Some(e)) && e.location.item_type != ROOT_ITEM_KEY
            }
        },
    }
}

/// The name of a file to be deleted stands for that file alone.
pub open spec fn names_alone(fs: FsV, path: Seq<char>) -> bool {
    let d = doomed_at(fs, path);
    let name = utf8(doomed_name(path));
    let old = dir_entries(
        disk_item(fs, fs.fs_tree.bytenr, entry_key(d.dir, name))->Ok_0->Some_0,
    )->Ok_0;
    forall|i: int|
        0 <= i < old.len() && (#[trigger] old[i]).name == name ==> old[i].location.objectid
            == d.ino
}

/// A way along `steps` does not lead through inode `ino`.
pub open spec fn avoids(fs: FsV, path: Seq<char>, steps: Seq<Seq<char>>, ino: u64) -> bool {
    let top = top_of(fs, fs.fs_tree)->Ok_0;
    forall|n: int|
        0 <= n <= steps.len() ==> trail(fs, top, path, #[trigger] steps.take(
            n,
        ))->Ok_0.last().inode.objectid != ino
}

/// An entry with the name of a file to be deleted, in its directory, is that
/// file's.
pub proof fn named_is_doomed(fs: FsV, path: Seq<char>)
    requires
        names_alone(fs, path),
    ensures
        ({
            let d = doomed_at(fs, path);
            let name = utf8(doomed_name(path));
            entry_in(fs, fs.fs_tree.bytenr, d.dir, name) matches Ok(Some(e))
                ==> e.location.objectid == d.ino
        }),
{
    let d = doomed_at(fs, path);
    let name = utf8(doomed_name(path));
    if let Ok(Some(x)) = disk_item(fs, fs.fs_tree.bytenr, entry_key(d.dir, name)) {
        if let Ok(old) = dir_entries(x) {
            first_idx_props(old, has_name(name));
        }
    }
}

/// Where a way leads does not depend on the path it is reported under.
proof fn trail_of_any_path(
    fs: FsV,
    top: Located,
    p: Seq<char>,
    q: Seq<char>,
    steps: Seq<Seq<char>>,
)
    requires
        trail(fs, top, p, steps) is Ok,
    ensures
        trail(fs, top, q, steps) == trail(fs, top, p, steps),
    decreases steps.len(),
{
    if steps.len() > 0 {
        trail_of_any_path(fs, top, p, q, steps.drop_last());
    }
}

/// The two volumes agree on where a way leads: to the same inode, of the same
/// kind, each in its own default subvolume.
spec fn agree(fs: FsV, gs: FsV, x: Located, y: Located) -> bool {
    &&& x.tree == fs.fs_tree
    &&& y.tree == gs.fs_tree
    &&& y.inode.objectid == x.inode.objectid
    &&& y.inode.kind() == x.inode.kind()
    &&& inode_of(fs, fs.fs_tree.bytenr, x.inode.objectid) == Ok::<
        Inode,
        Fault,
    >(x.inode)
}

/// A way to a directory is the same once a regular file, or a directory that the
/// way does not lead through, was deleted.
proof fn way_stays(
    fs: FsV,
    len: Option<u64>,
    path: Seq<char>,
    sec: u64,
    nsec: u32,
    seen: Lookups,
    steps: Seq<Seq<char>>,
)
    requires
        file_deleted(fs, path, sec, nsec, seen) is Ok,
        fit_to_delete(fs, path, sec, nsec, seen),
        ({
            let t = file_deleted(fs, path, sec, nsec, seen)->Ok_0;
            commits_clear(fs, len, t)
        }),
        (inode_of(fs, fs.fs_tree.bytenr, doomed_at(fs, path).ino) matches Ok(i) && i.kind()
            == FileType::Regular) || avoids(fs, path, steps, doomed_at(fs, path).ino),
        names_alone(fs, path),
        goes_down(fs, path, steps),
        ({
            let top = top_of(fs, fs.fs_tree)->Ok_0;
            trail(fs, top, path, steps)->Ok_0.last().inode.kind() == FileType::Directory
        }),
        ({
            let t = file_deleted(fs, path, sec, nsec, seen)->Ok_0;
            committed(fs, len, t)->Ok_0.0.fs_tree.root_dirid == fs.fs_tree.root_dirid
        }),
    ensures
        ({
            let t = file_deleted(fs, path, sec, nsec, seen)->Ok_0;
            let gs = committed(fs, len, t)->Ok_0.0;
            let top = top_of(fs, fs.fs_tree)->Ok_0;
            &&& top_of(gs, gs.fs_tree) matches Ok(up) && (trail(gs, up, path, steps) matches Ok(
                b,
            ) && agree(fs, gs, trail(fs, top, path, steps)->Ok_0.last(), b.last()))
        }),
    decreases steps.len(),
{
    let t = file_deleted(fs, path, sec, nsec, seen)->Ok_0;
    let gs = committed(fs, len, t)->Ok_0.0;
    let d = doomed_at(fs, path);
    let name = utf8(doomed_name(path));
    let top = top_of(fs, fs.fs_tree)->Ok_0;
    let root = fs.fs_tree.root_dirid;
    assert(steps.take(steps.len() as int) =~= steps);
    if steps.len() == 0 {
        assert(top.inode.objectid == root);
        assert(top.inode.kind() == FileType::Directory);
        deleted_keeps_kinds(fs, len, path, sec, nsec, seen, root);
        let up = top_of(gs, gs.fs_tree)->Ok_0;
        assert(trail(gs, up, path, steps) == Ok::<Seq<Located>, Fault>(seq![up]));
    } else {
        let front = steps.drop_last();
        let a = trail(fs, top, path, front)->Ok_0;
        let c = steps.last();
        let at = a.last();
        let x = child_of(fs, at, path, c)->Ok_0;
        assert(trail(fs, top, path, steps)->Ok_0 == a.push(x));
        assert(at.inode.kind() == FileType::Directory);
        assert(avoids(fs, path, steps, d.ino) ==> avoids(fs, path, front, d.ino)) by {
            assert forall|n: int| 0 <= n <= front.len() implies #[trigger] front.take(n)
                == steps.take(n) by {
                assert(front.take(n) =~= steps.take(n));
            }
        }
        assert(steps.take(front.len() as int) =~= front);
        way_stays(fs, len, path, sec, nsec, seen, front);
        let up = top_of(gs, gs.fs_tree)->Ok_0;
        let b = trail(gs, up, path, front)->Ok_0;
        let dir = at.inode.objectid;
        let e = entry_in(fs, fs.fs_tree.bytenr, dir, utf8(c))->Ok_0->Some_0;
        let ino = e.location.objectid;
        assert(dir != d.ino);
        assert(x.inode.objectid == ino && x.tree == fs.fs_tree);
        assert(ino != d.ino);
        named_is_doomed(fs, path);
        deleted_keeps_names(fs, len, path, sec, nsec, seen, dir, utf8(c));
        deleted_keeps_kinds(fs, len, path, sec, nsec, seen, ino);
        let y = child_of(gs, b.last(), path, c)->Ok_0;
        assert(trail(gs, up, path, steps) == Ok::<Seq<Located>, Fault>(b.push(y)));
    }
}

/// Once the deletion of a regular file or of an emptied directory is committed,
/// its path does not lead anywhere: it is not found.
///
/// The path goes down in the default subvolume, and through no directory twice;
/// the name stands for the file alone, and no device write of the commit damages
/// another.
pub proof fn deleted_is_not_found(
    fs: FsV,
    len: Option<u64>,
    path: Seq<char>,
    sec: u64,
    nsec: u32,
    seen: Lookups,
)
    requires
        file_deleted(fs, path, sec, nsec, seen) is Ok,
        fit_to_delete(fs, path, sec, nsec, seen),
        ({
            let t = file_deleted(fs, path, sec, nsec, seen)->Ok_0;
            commits_clear(fs, len, t)
        }),
        resolved(fs, fs.fs_tree, path)->Ok_0.inode.kind() == FileType::Regular || avoids(
            fs,
            path,
            components(parent_part(trimmed(path))),
            doomed_at(fs, path).ino,
        ),
        names_alone(fs, path),
        names(doomed_name(path)),
        doomed_name(path) != ".."@,
        goes_down(fs, path, components(parent_part(trimmed(path)))),
        inode_of(fs, fs.fs_tree.bytenr, doomed_at(fs, path).ino) == Ok::<Inode, Fault>(
            resolved(fs, fs.fs_tree, path)->Ok_0.inode,
        ),
    ensures
        ({
            let t = file_deleted(fs, path, sec, nsec, seen)->Ok_0;
            let gs = committed(fs, len, t)->Ok_0.0;
            resolved(gs, gs.fs_tree, path) == Err::<Located, Fault>(Fault::NotFound(path))
        }),
{
    let t = file_deleted(fs, path, sec, nsec, seen)->Ok_0;
    let gs = committed(fs, len, t)->Ok_0.0;
    let d = doomed_at(fs, path);
    let name = doomed_name(path);
    let up = parent_part(trimmed(path));
    let steps = components(up);
    let top = top_of(fs, fs.fs_tree)->Ok_0;
    parent_then_name(path);
    trail_of_any_path(fs, top, path, up, steps);
    let p = trail(fs, top, path, steps)->Ok_0.last();
    deletion_keeps_top(fs, path, sec, nsec, seen);
    way_stays(fs, len, path, sec, nsec, seen, steps);
    let gup = top_of(gs, gs.fs_tree)->Ok_0;
    let b = trail(gs, gup, path, steps)->Ok_0;
    assert(components(path) == steps.push(name));
    assert(components(path).drop_last() =~= steps);
    deleted_is_gone_on_device(fs, len, path, sec, nsec, seen, entry_key(d.dir, utf8(name)));
    assert(entry_in(gs, gs.fs_tree.bytenr, d.dir, utf8(name)) == Ok::<Option<DirItemV>, Fault>(
        None,
    ));
    assert(b.last().inode.objectid == d.dir);
    assert(child_of(gs, b.last(), path, name) == Err::<Located, Fault>(Fault::NotFound(path)));
}

/// Where a path is not found, nothing below it is found.
pub proof fn nothing_below_is_found(fs: FsV, path: Seq<char>, below: Seq<char>)
    requires
        resolved(fs, fs.fs_tree, path) matches Err(e) && e is NotFound,
        top_of(fs, fs.fs_tree) is Ok,
        components(path).is_prefix_of(components(below)),
    ensures
        resolved(fs, fs.fs_tree, below) matches Err(e) && e is NotFound,
{
    let top = top_of(fs, fs.fs_tree)->Ok_0;
    let steps = components(path);
    let n = steps.len() as int;
    assert(components(below).take(n) =~= steps);
    lost_under_any_path(fs, top, path, below, steps);
    trail_err(fs, top, below, components(below), n);
}

/// A way that is not found is not found under whatever path it is reported.
proof fn lost_under_any_path(
    fs: FsV,
    top: Located,
    p: Seq<char>,
    q: Seq<char>,
    steps: Seq<Seq<char>>,
)
    requires
        trail(fs, top, p, steps) matches Err(e) && e is NotFound,
    ensures
        trail(fs, top, q, steps) matches Err(e) && e is NotFound,
    decreases steps.len(),
{
    if steps.len() > 0 {
        let front = steps.drop_last();
        if trail(fs, top, p, front) is Ok {
            trail_of_any_path(fs, top, p, q, front);
        } else {
            lost_under_any_path(fs, top, p, q, front);
        }
    }
}

/// The root directory of the default subvolume stays what it is.
proof fn deletion_keeps_top(fs: FsV, path: Seq<char>, sec: u64, nsec: u32, seen: Lookups)
    requires
        file_deleted(fs, path, sec, nsec, seen) is Ok,
    ensures
        file_deleted(fs, path, sec, nsec, seen)->Ok_0.fs_tree.root_dirid == fs.fs_tree.root_dirid,
{
    reveal(finalized);
}

} // verus!
