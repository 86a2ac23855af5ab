//! What the operations on files promise as a whole, on a volume in order.

use vstd::arithmetic::power2::pow2;
use vstd::prelude::*;

use crate::error::{Fault, Outcome};
use crate::fs::btrfs::chunk::BLOCK_GROUP_DATA;
use crate::fs::btrfs::files::{disk_item, entry_in, inode_of, resolved, Located};
use crate::fs::btrfs::inode::{DirItemV, Inode};
use crate::fs::btrfs::roots::optional_root;
use crate::fs::btrfs::search::MAX_DEPTH;
use crate::fs::btrfs::tree::{Key, FREE_SPACE_TREE_OBJECTID};
use crate::fs::btrfs::volume::{FsV, VolV};
use crate::fs::btrfs::write::balance::untouched;
use crate::fs::btrfs::write::change::files_of;
use crate::fs::btrfs::write::clearing::{
    free_is_clear, gain_takes_free, in_use, loss_takes_free, no_stripe_in_super, pieces_whole,
    takes_free,
};
use crate::fs::btrfs::write::commit::{committed, commits};
use crate::fs::btrfs::write::contents::in_tree;
use crate::fs::btrfs::write::converge::{has_space_tree, Lookups};
use crate::fs::btrfs::write::counters::{counts_right, space_root_known};
use crate::fs::btrfs::write::counting::{gain_counts_right, loss_counts_right, well_counted};
use crate::fs::btrfs::write::entries::new_dir_item;
use crate::fs::btrfs::write::file::{begins, begins_streaming, readies, WriterV, MAX_GROWTH};
use crate::fs::btrfs::write::filling::{content_ops, fit_to_write, stored, written_is_stored};
use crate::fs::btrfs::write::gate::refusal;
use crate::fs::btrfs::write::handout::{
    first_fit_hands_out, handed_out_once, lies_in, offered, tidy,
};
use crate::fs::btrfs::write::holdings::unlists;
use crate::fs::btrfs::write::landing::{
    chunks_apart, keeps_content, writer_in_step, written_in_parts, written_keeps_content,
};
use crate::fs::btrfs::write::load::space_on;
use crate::fs::btrfs::write::moving::{
    fit_to_move, kept_with, lost_spans, moves_key, named_once, plan_of, renamed_is_found_on_device,
    renamed_keeps_the_rest,
};
use crate::fs::btrfs::write::placing::{
    begun_is_busy, begun_runs_apart, begun_runs_fit, making_room_keeps_apart, runs_aligned,
    runs_apart, runs_sum,
};
use crate::fs::btrfs::write::removal::{
    concerned, deleted_is_gone_on_device, deleted_is_unlisted, deleted_keeps_names,
    deletion_counts_right, doomed_at, doomed_name, fit_to_delete, shrunk,
};
use crate::fs::btrfs::write::resolving::{avoids, deleted_is_not_found, goes_down, names_alone};
use crate::fs::btrfs::write::space::BgV;
use crate::fs::btrfs::write::stamping::{changed_at, modified_at};
use crate::fs::btrfs::write::stream::{begun_is_empty, writes_chunk};
use crate::fs::btrfs::write::txn::data::{data_placed, data_target, disk_len, file_written};
use crate::fs::btrfs::write::txn::delete::{deletion_ops, file_deleted};
use crate::fs::btrfs::write::txn::rename::{
    rename_ops, rename_plan, renamed, replaced_items, MoveV,
};
use crate::fs::btrfs::write::txn::{inode_key, next_generation, TxnV};
use crate::fs::btrfs::write::workspace::fresh_state;
use crate::fs::btrfs::write::unlink::span_pairs;
use crate::fs::path::{components, names, parent_part, trimmed};
use crate::fs::FileType;
use crate::text::utf8;

verus! {

/// A volume in order: its chunks lie apart and off the superblock copies'
/// insides, and no address of it is free twice.
pub open spec fn in_order(fs: FsV) -> bool {
    &&& fs.sb.node_size > 0
    &&& fs.sb.sector_size > 0
    &&& chunks_apart(fs.chunks)
    &&& no_stripe_in_super(fs.chunks)
    &&& space_on(fs) matches Ok(space) && tidy(space)
}

/// Placing data frees nothing.
proof fn placed_keeps_space_root(fs: FsV, all: Seq<BgV>, content: Seq<u8>, fst: bool)
    requires
        tidy(all),
        data_placed(all, content.len() as int, fs.sb.sector_size) is Some,
        space_root_known(fs, fresh_state(all), fst),
    ensures
        space_root_known(
            fs,
            fresh_state(data_placed(all, content.len() as int, fs.sb.sector_size)->Some_0.1),
            fst,
        ),
{
    let sector = fs.sb.sector_size;
    let len = disk_len(content.len() as int, sector);
    let (at, space) = data_placed(all, content.len() as int, sector)->Some_0;
    if let Some(o) = optional_root(fs, FREE_SPACE_TREE_OBJECTID, fst) {
        if has_space_tree(fs) && len > 0 {
            let b = o.bytenr;
            first_fit_hands_out(all, BLOCK_GROUP_DATA, len, sector as u64);
            handed_out_once(all, space, at as int, len as int);
            assert(untouched(fresh_state(all), b));
            assert(offered(space, b as int) <= offered(all, b as int)) by {
                if !lies_in(b as int, at as int, len as int) {
                    assert(offered(space, b as int) == offered(all, b as int));
                }
            }
            assert(untouched(fresh_state(space), b));
        }
    }
}

/// A commit of `t` went through, every piece of it lies in one chunk, and the
/// blocks of the files that are kept were in use.
pub open spec fn went_through(fs: FsV, len: Option<u64>, t: TxnV) -> bool {
    &&& committed(fs, len, t) is Ok
    &&& pieces_whole(fs, t)
    &&& files_of(t).1 < MAX_DEPTH
    &&& forall|a: u64| #[trigger]
        in_tree(fs, t.blocks, files_of(t).0, files_of(t).1, a) ==> t.blocks.contains_key(a)
            || in_use(fs, a)
}

/// The volume once a commit that ended well was done is the one committed.
pub proof fn commit_is_committed(v: VolV, w: VolV, t: TxnV)
    requires
        commits(v, w, Ok(()), t),
    ensures
        committed(v.fs, v.len, t) is Ok,
        w.fs == committed(v.fs, v.len, t)->Ok_0.0,
{
}

/// A file that is begun has nothing written, and space set aside for just its
/// size in whole sectors: runs that begin at sectors, hold whole ones and share
/// no byte. While it is being written no other file can be begun.
///
/// The sector size is a power of two; no address is free twice at the start, and
/// the block groups lie apart wherever chunks are allocated on the way.
pub proof fn begin_promises(
    v: VolV,
    size: u64,
    now: u64,
    w: VolV,
    a: WriterV,
    k: nat,
    other: u64,
    later: u64,
    x: VolV,
    r: Outcome<WriterV>,
)
    requires
        begins(v, size, now, w, Ok(a)),
        k < 32,
        v.fs.sb.sector_size == pow2(k),
        forall|y: VolV, s: Seq<BgV>| #[trigger]
            readies(v, now, y, Ok(s)) ==> tidy(s) && making_room_keeps_apart(
                y,
                s,
                disk_len(size as int, v.fs.sb.sector_size),
                v.fs.sb.sector_size,
                MAX_GROWTH as nat,
            ),
        refusal(w.fs) is None,
        begins(w, other, later, x, r) || begins_streaming(w, later, x, r),
    ensures
        a.size == size,
        a.written == 0,
        !a.streaming,
        a.sums.len() == 0,
        a.tail.len() == 0,
        runs_aligned(a.runs, v.fs.sb.sector_size as int),
        runs_apart(a.runs),
        runs_sum(a.runs) == disk_len(size as int, v.fs.sb.sector_size),
        w.writer,
        r == Err::<WriterV, Fault>(Fault::WriterBusy),
        x == w,
{
    begun_runs_fit(v, size, now, w, a, k);
    begun_runs_apart(v, size, now, w, a);
    begun_is_empty(v, size, now, w, a);
    begun_is_busy(w, other, later, x, r);
}

/// A file that is being written stays the one that is.
pub proof fn writing_stays_busy(
    v: VolV,
    a: WriterV,
    data: Seq<u8>,
    w: VolV,
    b: WriterV,
    r: Outcome<()>,
)
    requires
        writes_chunk(v, a, data, w, b, r),
    ensures
        w.writer == v.writer,
{
}

/// Two calls leave what one call on the joined data leaves: the same bytes
/// written, the same checksums, the same unfinished sector, the same device. The
/// checksums are those of the sectors of the file, one for each sector begun,
/// under the addresses that the sectors go to. Data past the size is refused,
/// and nothing is changed.
pub proof fn write_promises(
    v: VolV,
    a: WriterV,
    content: Seq<u8>,
    x: Seq<u8>,
    y: Seq<u8>,
    v1: VolV,
    a1: WriterV,
    v2: VolV,
    a2: WriterV,
    w: VolV,
    b: WriterV,
    r: Outcome<()>,
    more: Seq<u8>,
    u: VolV,
    c: WriterV,
    q: Outcome<()>,
)
    requires
        chunks_apart(v.fs.chunks),
        writer_in_step(a, v.fs.sb.sector_size),
        keeps_content(a, content, v.fs.sb.sector_size as int),
        a.written + x.len() + y.len() <= a.size,
        writes_chunk(v, a, x, v1, a1, Ok(())),
        writes_chunk(v1, a1, y, v2, a2, Ok(())),
        writes_chunk(v, a, x + y, w, b, r),
        a2.written + more.len() > a2.size,
        writes_chunk(v2, a2, more, u, c, q),
    ensures
        v.steady ==> r is Ok,
        r is Ok ==> b == a2 && w.fs.disk == v2.fs.disk,
        keeps_content(a2, content + x + y, v.fs.sb.sector_size as int),
        writer_in_step(a2, v.fs.sb.sector_size),
        q == Err::<(), Fault>(Fault::OutOfBounds),
        u == v2,
        c == a2,
{
    written_in_parts(v, a, x, y, v1, a1, v2, a2, w, b, r);
    written_keeps_content(v, a, content, x, v1, a1);
    written_keeps_content(v1, a1, content + x, y, v2, a2);
}

/// Once a rename is committed: the old name is not in its directory; the new one
/// is in its own, once, and stands for the file, whose inode reads as it did and
/// whose other items, such as its data extents, are found as before; every other
/// name stands for what it stood for; of a file that was replaced no item is
/// left; the used counters are right if they were; and all that has to do with
/// neither the file nor the two directories is as before.
pub proof fn rename_promises(
    fs: FsV,
    len: Option<u64>,
    old_dir: Seq<char>,
    old_name: Seq<char>,
    new_dir: Seq<char>,
    new_name: Seq<char>,
    sec: u64,
    nsec: u32,
    seen: Lookups,
    dir: u64,
    q: Seq<u8>,
    k: Key,
)
    requires
        in_order(fs),
        renamed(fs, old_dir, old_name, new_dir, new_name, sec, nsec, seen) is Ok,
        rename_plan(fs, old_dir, old_name, new_dir, new_name) matches Ok(MoveV::Go(_)),
        fit_to_move(
            fs,
            plan_of(fs, old_dir, old_name, new_dir, new_name),
            old_name,
            new_name,
            sec,
            nsec,
            seen,
        ),
        utf8(new_name).len() <= u16::MAX,
        ({
            let p = plan_of(fs, old_dir, old_name, new_dir, new_name);
            p.child != p.from && p.child != p.to
        }),
        went_through(
            fs,
            len,
            renamed(fs, old_dir, old_name, new_dir, new_name, sec, nsec, seen)->Ok_0,
        ),
    ensures
        ({
            let t = renamed(fs, old_dir, old_name, new_dir, new_name, sec, nsec, seen)->Ok_0;
            let gs = committed(fs, len, t)->Ok_0.0;
            let p = plan_of(fs, old_dir, old_name, new_dir, new_name);
            let from = fs.fs_tree.bytenr;
            let to = gs.fs_tree.bytenr;
            let other = !(dir == p.from && q == utf8(old_name)) && !(dir == p.to && q == utf8(
                new_name,
            )) && !(p.replaced matches Some(x) && x.ino == dir);
            let none = Ok::<Option<DirItemV>, Fault>(None);
            &&& entry_in(gs, to, p.from, utf8(old_name)) == none
            &&& entry_in(gs, to, p.to, utf8(new_name)) == Ok::<Option<DirItemV>, Fault>(
                Some(new_dir_item(p.child, p.kind, utf8(new_name))),
            )
            &&& named_once(kept_with(gs, to, p.to, utf8(new_name)), utf8(new_name))
            &&& inode_of(gs, to, p.child) == inode_of(fs, from, p.child)
            &&& other ==> entry_in(gs, to, dir, q) == entry_in(fs, from, dir, q)
            &&& !moves_key(p, old_name, new_name, k) ==> disk_item(gs, to, k) == disk_item(
                fs,
                from,
                k,
            )
            &&& p.replaced matches Some(x) ==> (k.objectid == x.ino ==> disk_item(gs, to, k)
                == Ok::<Option<Seq<u8>>, Fault>(None))
            &&& well_counted(fs, seen) ==> counts_right(fs, t)
        }),
{
    let t = renamed(fs, old_dir, old_name, new_dir, new_name, sec, nsec, seen)->Ok_0;
    let p = plan_of(fs, old_dir, old_name, new_dir, new_name);
    let space = space_on(fs)->Ok_0;
    let g = next_generation(fs);
    let items = replaced_items(fs, p)->Ok_0;
    let ops = rename_ops(p, g, items, old_name, new_name, sec, nsec);
    loss_takes_free(fs, g, space, ops, lost_spans(p), seen);
    if well_counted(fs, seen) {
        loss_counts_right(fs, g, space, ops, lost_spans(p), seen);
    }
    assert(takes_free(fs, t, space));
    free_is_clear(fs, len, t, space);
    renamed_is_found_on_device(fs, len, old_dir, old_name, new_dir, new_name, sec, nsec, seen);
    renamed_keeps_the_rest(
        fs,
        len,
        old_dir,
        old_name,
        new_dir,
        new_name,
        sec,
        nsec,
        seen,
        dir,
        q,
        k,
    );
}

/// Once the deletion of a file or of an emptied directory is committed: its path
/// is not found, no item of its inode is left, every other name stands for what it
/// stood for, its directory has shrunk by twice the name, the extent tree has no
/// item for its data extents, the used counters are right if they were, all else
/// is as before, and the generation is the next one.
pub proof fn delete_promises(
    fs: FsV,
    len: Option<u64>,
    path: Seq<char>,
    sec: u64,
    nsec: u32,
    seen: Lookups,
    dir: u64,
    q: Seq<u8>,
    k: Key,
)
    requires
        in_order(fs),
        file_deleted(fs, path, sec, nsec, seen) is Ok,
        fit_to_delete(fs, path, sec, nsec, seen),
        went_through(fs, len, file_deleted(fs, path, sec, nsec, seen)->Ok_0),
        resolved(fs, fs.fs_tree, path)->Ok_0.inode.kind() == FileType::Regular || avoids(
            fs,
            path,
            components(parent_part(trimmed(path))),
            doomed_at(fs, path).ino,
        ),
        names_alone(fs, path),
        names(doomed_name(path)),
        doomed_name(path) != ".."@,
        goes_down(fs, path, components(parent_part(trimmed(path)))),
        inode_of(fs, fs.fs_tree.bytenr, doomed_at(fs, path).ino) == Ok::<Inode, Fault>(
            resolved(fs, fs.fs_tree, path)->Ok_0.inode,
        ),
    ensures
        ({
            let t = file_deleted(fs, path, sec, nsec, seen)->Ok_0;
            let gs = committed(fs, len, t)->Ok_0.0;
            let d = doomed_at(fs, path);
            let name = utf8(doomed_name(path));
            let from = fs.fs_tree.bytenr;
            let to = gs.fs_tree.bytenr;
            let none = Ok::<Option<Seq<u8>>, Fault>(None);
            &&& resolved(gs, gs.fs_tree, path) == Err::<Located, Fault>(Fault::NotFound(path))
            &&& k.objectid == d.ino ==> disk_item(gs, to, k) == none
            &&& dir != d.ino && !(dir == d.dir && q == name) ==> entry_in(gs, to, dir, q)
                == entry_in(fs, from, dir, q)
            &&& shrunk(gs, to, fs, d, doomed_name(path))
            &&& unlists(fs, t, space_on(fs)->Ok_0, span_pairs(d.spans))
            &&& well_counted(fs, seen) ==> counts_right(fs, t)
            &&& !concerned(d, name, k) ==> disk_item(gs, to, k) == disk_item(fs, from, k)
            &&& t.generation == next_generation(fs)
        }),
{
    let t = file_deleted(fs, path, sec, nsec, seen)->Ok_0;
    let d = doomed_at(fs, path);
    let space = space_on(fs)->Ok_0;
    let g = next_generation(fs);
    let ops = deletion_ops(d, g, doomed_name(path), sec, nsec);
    loss_takes_free(fs, g, space, ops, d.spans, seen);
    assert(takes_free(fs, t, space));
    free_is_clear(fs, len, t, space);
    deleted_is_not_found(fs, len, path, sec, nsec, seen);
    deleted_is_gone_on_device(fs, len, path, sec, nsec, seen, k);
    deleted_is_unlisted(fs, path, sec, nsec, seen);
    deletion_counts_right(fs, path, sec, nsec, seen);
    if dir != d.ino && !(dir == d.dir && q == utf8(doomed_name(path))) {
        deleted_keeps_names(fs, len, path, sec, nsec, seen, dir, q);
    }
}

/// Once the transaction that writes `content` into a file is committed: the file
/// records its length and the bytes of the whole sectors it takes, every copy of
/// the extent at its start begins with the content, its times are the one that
/// was given, and the used counters are right if they were. A directory is
/// refused.
pub proof fn content_promises(
    fs: FsV,
    len: Option<u64>,
    path: Seq<char>,
    content: Seq<u8>,
    sec: u64,
    nsec: u32,
    seen: Lookups,
)
    requires
        in_order(fs),
        file_written(fs, path, content, sec, nsec, seen) is Ok,
        fit_to_write(fs, path, content, sec, nsec, seen),
        content.len() <= u64::MAX,
        went_through(fs, len, file_written(fs, path, content, sec, nsec, seen)->Ok_0),
    ensures
        ({
            let t = file_written(fs, path, content, sec, nsec, seen)->Ok_0;
            let gs = committed(fs, len, t)->Ok_0.0;
            let ino = data_target(fs, path)->Ok_0.inode.objectid;
            &&& stored(gs, ino, content)
            &&& disk_item(gs, gs.fs_tree.bytenr, inode_key(ino)) matches Ok(Some(d))
                && modified_at(d, sec, nsec) && changed_at(d, sec, nsec)
            &&& well_counted(fs, seen) ==> counts_right(fs, t)
        }),
{
    let t = file_written(fs, path, content, sec, nsec, seen)->Ok_0;
    let all = space_on(fs)->Ok_0;
    let (at, space) = data_placed(all, content.len() as int, fs.sb.sector_size)->Some_0;
    let ino = data_target(fs, path)->Ok_0.inode.objectid;
    gain_takes_free(
        fs,
        next_generation(fs),
        all,
        content_ops(fs, ino, content, sec, nsec),
        ino,
        content,
        seen,
    );
    assert(takes_free(fs, t, space));
    free_is_clear(fs, len, t, space);
    written_is_stored(fs, len, path, content, sec, nsec, seen);
    if well_counted(fs, seen) {
        placed_keeps_space_root(fs, all, content, seen.fst);
        gain_counts_right(
            fs,
            next_generation(fs),
            all,
            space,
            content_ops(fs, ino, content, sec, nsec),
            ino,
            at,
            content,
            seen,
        );
    }
}

} // verus!
