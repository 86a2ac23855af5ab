//! A deletion takes away one name and what stood for it alone: what has another
//! name is refused, and every other path leads where it led.

use vstd::prelude::*;

use crate::bytes::le32;
use crate::error::{Fault, Outcome};
use crate::fs::btrfs::files::{
    child_of, disk_item, entry_in, inode_of, resolved, top_of, trail, Located,
};
use crate::fs::btrfs::inode::Inode;
use crate::fs::btrfs::tree::Key;
use crate::fs::btrfs::volume::{FsV, VolV};
use crate::fs::btrfs::write::change::commits_clear;
use crate::fs::btrfs::write::clearing::{loss_takes_free, used_byte_is_kept};
use crate::fs::btrfs::write::commit::{commits, committed};
use crate::fs::btrfs::write::converge::{finalized, possible, Lookups};
use crate::fs::btrfs::write::erase::{deletes, erases, removal};
use crate::fs::btrfs::write::exclude::{in_ranges, sb_exclusions};
use crate::fs::btrfs::write::handout::offered;
use crate::fs::btrfs::write::landing::lands_on;
use crate::fs::btrfs::write::load::space_on;
use crate::fs::btrfs::write::ops::{commits_some, failed};
use crate::fs::btrfs::write::promises::{in_order, went_through};
use crate::fs::btrfs::write::removal::{
    concerned, deleted_is_gone_on_device, deleted_keeps_kinds, deleted_keeps_names, doomed_at,
    doomed_name, fit_to_delete,
};
use crate::fs::btrfs::write::resolving::{avoids, goes_down, named_is_doomed, names_alone};
use crate::fs::btrfs::write::txn::delete::{deletion_ops, file_deleted};
use crate::fs::btrfs::write::txn::next_generation;
use crate::fs::path::components;
use crate::fs::FileType;
use crate::text::utf8;

verus! {

/// How many links the inode item of `ino` records: the number at byte 40.
pub open spec fn recorded_links(fs: FsV, ino: u64) -> int {
    match disk_item(fs, fs.fs_tree.bytenr, Key { objectid: ino, item_type: 1, offset: 0 }) {
        Ok(Some(d)) => le32(d, 40) as int,
        _ => 0,
    }
}

/// The name `name` in directory `dir` of the default subvolume stands for inode
/// `ino`.
pub open spec fn stands(fs: FsV, dir: u64, name: Seq<u8>, ino: u64) -> bool {
    entry_in(fs, fs.fs_tree.bytenr, dir, name) matches Ok(Some(e)) && e.location.objectid == ino
        && e.location.item_type == 1
}

/// Links are counted: an inode that two names stand for records two links or
/// more.
pub open spec fn links_counted(fs: FsV) -> bool {
    forall|d: u64, p: Seq<u8>, e: u64, q: Seq<u8>, ino: u64|
        #![trigger stands(fs, d, p, ino), stands(fs, e, q, ino)]
        stands(fs, d, p, ino) && stands(fs, e, q, ino) && !(d == e && p == q) ==> recorded_links(
            fs,
            ino,
        ) >= 2
}

/// The inode that is found along a path is read from the default subvolume.
pub open spec fn reads_inode(fs: FsV, path: Seq<char>) -> bool {
    resolved(fs, fs.fs_tree, path) matches Ok(x) && inode_of(
        fs,
        fs.fs_tree.bytenr,
        x.inode.objectid,
    ) == Ok::<Inode, Fault>(x.inode)
}

/// A file with more than one link is not deleted: the transaction is refused.
pub proof fn linked_is_refused(fs: FsV, path: Seq<char>, sec: u64, nsec: u32, seen: Lookups)
    requires
        reads_inode(fs, path),
        recorded_links(fs, resolved(fs, fs.fs_tree, path)->Ok_0.inode.objectid) >= 2,
    ensures
        file_deleted(fs, path, sec, nsec, seen) is Err,
{
}

/// Where a deletion goes through, no other name of the volume stood for the
/// inode that it deletes.
pub proof fn deleted_had_one_name(
    fs: FsV,
    path: Seq<char>,
    sec: u64,
    nsec: u32,
    seen: Lookups,
    dir: u64,
    name: Seq<u8>,
    e: u64,
    q: Seq<u8>,
)
    requires
        file_deleted(fs, path, sec, nsec, seen) is Ok,
        reads_inode(fs, path),
        links_counted(fs),
        stands(fs, dir, name, resolved(fs, fs.fs_tree, path)->Ok_0.inode.objectid),
        stands(fs, e, q, resolved(fs, fs.fs_tree, path)->Ok_0.inode.objectid),
    ensures
        dir == e && name == q,
{
    let ino = resolved(fs, fs.fs_tree, path)->Ok_0.inode.objectid;
    if !(dir == e && name == q) {
        assert(recorded_links(fs, ino) >= 2);
        linked_is_refused(fs, path, sec, nsec, seen);
    }
}

/// Deleting a file with more than one link, or anything that is neither a file
/// nor a directory, ends in an error and leaves the volume as it was.
pub proof fn linked_is_left_alone(
    v: VolV,
    path: Seq<char>,
    sec: u64,
    nsec: u32,
    w: VolV,
    r: Outcome<()>,
)
    requires
        deletes(v, path, sec, nsec, w, r),
        v.batch is None,
        reads_inode(v.fs, path),
        ({
            let x = resolved(v.fs, v.fs.fs_tree, path)->Ok_0;
            x.inode.kind() != FileType::Directory && (x.inode.kind() != FileType::Regular
                || recorded_links(v.fs, x.inode.objectid) >= 2)
        }),
    ensures
        w == v,
        r is Err,
{
    reveal(erases);
    if commits_some(v, w, r, removal(path, sec, nsec)) {
        let seen = choose|seen: Lookups| #[trigger]
            possible(v.steady, seen) && ((w == v && failed(v, r)) || match removal(
                path,
                sec,
                nsec,
            )(v.fs, seen) {
                Err(e) => w == v && r == Err::<(), Fault>(e),
                Ok(t) => commits(v, w, r, t),
            });
        if resolved(v.fs, v.fs.fs_tree, path)->Ok_0.inode.kind() == FileType::Regular {
            linked_is_refused(v.fs, path, sec, nsec, seen);
        }
        assert(file_deleted(v.fs, path, sec, nsec, seen) is Err);
    }
}

/// What is found at the end of a way before and after a deletion: the same inode,
/// of the same kind.
pub open spec fn same_file(fs: FsV, gs: FsV, x: Located, y: Located) -> bool {
    &&& x.tree == fs.fs_tree
    &&& y.tree == gs.fs_tree
    &&& y.inode.objectid == x.inode.objectid
    &&& y.inode.kind() == x.inode.kind()
}

/// A way that does not lead through what was deleted leads where it led.
proof fn other_way_stays(
    fs: FsV,
    len: Option<u64>,
    path: Seq<char>,
    sec: u64,
    nsec: u32,
    seen: Lookups,
    other: Seq<char>,
    steps: Seq<Seq<char>>,
)
    requires
        file_deleted(fs, path, sec, nsec, seen) is Ok,
        fit_to_delete(fs, path, sec, nsec, seen),
        ({
            let t = file_deleted(fs, path, sec, nsec, seen)->Ok_0;
            commits_clear(fs, len, t)
        }),
        names_alone(fs, path),
        goes_down(fs, other, steps),
        avoids(fs, other, steps, doomed_at(fs, path).ino),
    ensures
        ({
            let t = file_deleted(fs, path, sec, nsec, seen)->Ok_0;
            let gs = committed(fs, len, t)->Ok_0.0;
            let top = top_of(fs, fs.fs_tree)->Ok_0;
            &&& top_of(gs, gs.fs_tree) matches Ok(up) && (trail(gs, up, other, steps) matches Ok(
                b,
            ) && same_file(fs, gs, trail(fs, top, other, steps)->Ok_0.last(), b.last()))
            &&& inode_of(
                fs,
                fs.fs_tree.bytenr,
                trail(fs, top, other, steps)->Ok_0.last().inode.objectid,
            ) == Ok::<Inode, Fault>(trail(fs, top, other, steps)->Ok_0.last().inode)
        }),
    decreases steps.len(),
{
    let t = file_deleted(fs, path, sec, nsec, seen)->Ok_0;
    let gs = committed(fs, len, t)->Ok_0.0;
    let d = doomed_at(fs, path);
    let top = top_of(fs, fs.fs_tree)->Ok_0;
    let root = fs.fs_tree.root_dirid;
    assert(gs.fs_tree.root_dirid == root) by {
        reveal(finalized);
    }
    assert(steps.take(steps.len() as int) =~= steps);
    if steps.len() == 0 {
        assert(steps.take(0) =~= steps);
        assert(top.inode.objectid == root);
        deleted_keeps_kinds(fs, len, path, sec, nsec, seen, root);
        let up = top_of(gs, gs.fs_tree)->Ok_0;
        assert(trail(gs, up, other, steps) == Ok::<Seq<Located>, Fault>(seq![up]));
    } else {
        let front = steps.drop_last();
        let a = trail(fs, top, other, front)->Ok_0;
        let c = steps.last();
        let at = a.last();
        let x = child_of(fs, at, other, c)->Ok_0;
        assert(trail(fs, top, other, steps)->Ok_0 == a.push(x));
        assert(at.inode.kind() == FileType::Directory);
        assert(avoids(fs, other, front, d.ino)) by {
            assert forall|n: int| 0 <= n <= front.len() implies trail(
                fs,
                top,
                other,
                #[trigger] front.take(n),
            )->Ok_0.last().inode.objectid != d.ino by {
                assert(front.take(n) =~= steps.take(n));
            }
        }
        other_way_stays(fs, len, path, sec, nsec, seen, other, front);
        let up = top_of(gs, gs.fs_tree)->Ok_0;
        let b = trail(gs, up, other, front)->Ok_0;
        let dir = at.inode.objectid;
        let e = entry_in(fs, fs.fs_tree.bytenr, dir, utf8(c))->Ok_0->Some_0;
        let ino = e.location.objectid;
        assert(steps.take(front.len() as int) =~= front);
        assert(dir != d.ino);
        assert(x.inode.objectid == ino && x.tree == fs.fs_tree);
        assert(ino != d.ino);
        named_is_doomed(fs, path);
        deleted_keeps_names(fs, len, path, sec, nsec, seen, dir, utf8(c));
        deleted_keeps_kinds(fs, len, path, sec, nsec, seen, ino);
        let y = child_of(gs, b.last(), other, c)->Ok_0;
        assert(trail(gs, up, other, steps) == Ok::<Seq<Located>, Fault>(b.push(y)));
    }
}

/// A way does not lead through the entry `name` of directory `dir`.
pub open spec fn passes_by(
    fs: FsV,
    path: Seq<char>,
    steps: Seq<Seq<char>>,
    dir: u64,
    name: Seq<u8>,
) -> bool {
    let top = top_of(fs, fs.fs_tree)->Ok_0;
    forall|n: int|
        0 <= n < steps.len() ==> !(trail(
            fs,
            top,
            path,
            #[trigger] steps.take(n),
        )->Ok_0.last().inode.objectid == dir && utf8(steps[n]) == name)
}

/// A way past the deleted name does not lead through the deleted inode.
proof fn past_the_name(
    fs: FsV,
    path: Seq<char>,
    sec: u64,
    nsec: u32,
    seen: Lookups,
    other: Seq<char>,
    steps: Seq<Seq<char>>,
    n: int,
)
    requires
        file_deleted(fs, path, sec, nsec, seen) is Ok,
        reads_inode(fs, path),
        links_counted(fs),
        stands(fs, doomed_at(fs, path).dir, utf8(doomed_name(path)), doomed_at(fs, path).ino),
        doomed_at(fs, path).ino != fs.fs_tree.root_dirid,
        goes_down(fs, other, steps),
        only_inodes(fs, other, steps),
        passes_by(fs, other, steps, doomed_at(fs, path).dir, utf8(doomed_name(path))),
        0 <= n <= steps.len(),
    ensures
        goes_down(fs, other, steps.take(n)),
        trail(
            fs,
            top_of(fs, fs.fs_tree)->Ok_0,
            other,
            steps.take(n),
        )->Ok_0.last().tree == fs.fs_tree,
        trail(
            fs,
            top_of(fs, fs.fs_tree)->Ok_0,
            other,
            steps.take(n),
        )->Ok_0.last().inode.objectid != doomed_at(fs, path).ino,
    decreases steps.len(), n,
{
    let d = doomed_at(fs, path);
    let top = top_of(fs, fs.fs_tree)->Ok_0;
    if n == 0 {
        down_from_start(fs, other, steps, 0);
        assert(steps.take(0) =~= Seq::<Seq<char>>::empty());
        assert(trail(fs, top, other, steps.take(0)) == Ok::<Seq<Located>, Fault>(seq![top]));
    } else {
        past_the_name(fs, path, sec, nsec, seen, other, steps, n - 1);
        down_from_start(fs, other, steps, n);
        let way = steps.take(n);
        let front = steps.take(n - 1);
        assert(way.drop_last() =~= front);
        assert(way.last() == steps[n - 1]);
        let at = trail(fs, top, other, front)->Ok_0.last();
        let e = entry_in(fs, fs.fs_tree.bytenr, at.inode.objectid, utf8(way.last()))->Ok_0->Some_0;
        let x = child_of(fs, at, other, way.last())->Ok_0;
        assert(trail(fs, top, other, way)->Ok_0 == trail(fs, top, other, front)->Ok_0.push(x));
        assert(x.inode.objectid == e.location.objectid);
        assert(e.location.item_type == 1);
        if e.location.objectid == d.ino {
            assert(stands(fs, at.inode.objectid, utf8(way.last()), d.ino));
            deleted_had_one_name(
                fs,
                path,
                sec,
                nsec,
                seen,
                d.dir,
                utf8(doomed_name(path)),
                at.inode.objectid,
                utf8(way.last()),
            );
            assert(!(at.inode.objectid == d.dir && utf8(steps[n - 1]) == utf8(doomed_name(path))));
        }
    }
}

/// Every entry on a way stands for an inode.
pub open spec fn only_inodes(fs: FsV, path: Seq<char>, steps: Seq<Seq<char>>) -> bool {
    let top = top_of(fs, fs.fs_tree)->Ok_0;
    forall|n: int|
        0 <= n < steps.len() ==> (entry_in(
            fs,
            fs.fs_tree.bytenr,
            trail(fs, top, path, #[trigger] steps.take(n))->Ok_0.last().inode.objectid,
            utf8(steps[n]),
        ) matches Ok(Some(e)) ==> e.location.item_type == 1)
}

/// A leading part of a way that goes down goes down.
proof fn down_from_start(fs: FsV, path: Seq<char>, steps: Seq<Seq<char>>, n: int)
    requires
        goes_down(fs, path, steps),
        0 <= n <= steps.len(),
    ensures
        goes_down(fs, path, steps.take(n)),
    decreases steps.len(),
{
    if n < steps.len() {
        down_from_start(fs, path, steps.drop_last(), n);
        assert(steps.drop_last().take(n) =~= steps.take(n));
    } else {
        assert(steps.take(n) =~= steps);
    }
}

/// Once a deletion is committed, every other path leads to the inode that it led
/// to, of the same kind, and with the same items, but for the directory that the
/// name was taken from; and every byte at an address that was in use is what it
/// was, on every copy of it. So what another path led to has its contents still.
///
/// Links are counted on the volume, and the other path goes down in the default
/// subvolume past the name that is deleted.
pub proof fn others_are_spared(
    fs: FsV,
    len: Option<u64>,
    path: Seq<char>,
    sec: u64,
    nsec: u32,
    seen: Lookups,
    other: Seq<char>,
    k: Key,
    y: int,
    x: int,
)
    requires
        in_order(fs),
        file_deleted(fs, path, sec, nsec, seen) is Ok,
        fit_to_delete(fs, path, sec, nsec, seen),
        went_through(fs, len, file_deleted(fs, path, sec, nsec, seen)->Ok_0),
        commits_clear(fs, len, file_deleted(fs, path, sec, nsec, seen)->Ok_0),
        names_alone(fs, path),
        reads_inode(fs, path),
        links_counted(fs),
        stands(fs, doomed_at(fs, path).dir, utf8(doomed_name(path)), doomed_at(fs, path).ino),
        doomed_at(fs, path).ino != fs.fs_tree.root_dirid,
        goes_down(fs, other, components(other)),
        only_inodes(fs, other, components(other)),
        passes_by(
            fs,
            other,
            components(other),
            doomed_at(fs, path).dir,
            utf8(doomed_name(path)),
        ),
        k.objectid == resolved(fs, fs.fs_tree, other)->Ok_0.inode.objectid,
        lands_on(fs.chunks, y, x),
        offered(space_on(fs)->Ok_0, y) == 0,
        !in_ranges(sb_exclusions(fs.chunks), y),
        0 <= x < fs.disk.len(),
    ensures
        ({
            let gs = committed(fs, len, file_deleted(fs, path, sec, nsec, seen)->Ok_0)->Ok_0.0;
            &&& resolved(fs, fs.fs_tree, other) matches Ok(a) && resolved(
                gs,
                gs.fs_tree,
                other,
            ) matches Ok(b) && same_file(fs, gs, a, b)
            &&& k.objectid != doomed_at(fs, path).dir ==> disk_item(gs, gs.fs_tree.bytenr, k)
                == disk_item(fs, fs.fs_tree.bytenr, k)
            &&& gs.disk[x] == fs.disk[x]
        }),
{
    let steps = components(other);
    let d = doomed_at(fs, path);
    let t = file_deleted(fs, path, sec, nsec, seen)->Ok_0;
    assert(avoids(fs, other, steps, d.ino)) by {
        assert forall|n: int| 0 <= n <= steps.len() implies trail(
            fs,
            top_of(fs, fs.fs_tree)->Ok_0,
            other,
            #[trigger] steps.take(n),
        )->Ok_0.last().inode.objectid != d.ino by {
            past_the_name(fs, path, sec, nsec, seen, other, steps, n);
        }
    }
    other_way_stays(fs, len, path, sec, nsec, seen, other, steps);
    assert(steps.take(steps.len() as int) =~= steps);
    past_the_name(fs, path, sec, nsec, seen, other, steps, steps.len() as int);
    deleted_is_gone_on_device(fs, len, path, sec, nsec, seen, k);
    assert(k.objectid != d.dir ==> !concerned(d, utf8(doomed_name(path)), k));
    let space = space_on(fs)->Ok_0;
    let g = next_generation(fs);
    let ops = deletion_ops(d, g, doomed_name(path), sec, nsec);
    loss_takes_free(fs, g, space, ops, d.spans, seen);
    used_byte_is_kept(fs, len, t, space, y, x);
}

} // verus!
