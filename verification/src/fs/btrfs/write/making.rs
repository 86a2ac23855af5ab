//! What a new file or directory is once it is committed: its entry, its place in
//! the directory's index, its inode, its way back to the directory, and what its
//! directory records.

use vstd::prelude::*;

use crate::bytes::{has16, has64};
use crate::error::Fault;
use crate::fs::btrfs::files::{disk_item, entry_in, resolved};
use crate::fs::btrfs::formats::{
    built_entry_is_stored, built_inode_is_stored, built_ref_is_stored, patched_inode_is_stored,
    resized, stores_entry, stores_inode, EntryFields, InodeFields,
};
use crate::fs::btrfs::inode::DirItemV;
use crate::fs::btrfs::search::MAX_DEPTH;
use crate::fs::btrfs::tree::Key;
use crate::fs::btrfs::volume::FsV;
use crate::fs::btrfs::write::change::{all_low, commits_clear, files_change_as_told, fit_to_change};
use crate::fs::btrfs::write::commit::committed;
use crate::fs::btrfs::write::converge::Lookups;
use crate::fs::btrfs::write::creation::created_is_found_on_device;
use crate::fs::btrfs::write::edit::{patched, InodePatch, SizeEdit};
use crate::fs::btrfs::write::load::space_on;
use crate::fs::btrfs::write::moving::{found_on_device, index_item, under};
use crate::fs::btrfs::write::payload::{dir_item_bytes, inode_item_bytes, inode_ref_bytes};
use crate::fs::btrfs::write::space::BgV;
use crate::fs::btrfs::write::tree_map::{
    all_allowed, allowed, contents, map_after, map_after_all,
};
use crate::fs::btrfs::write::txn::create::{directory_created, file_created, new_file_base};
use crate::fs::btrfs::write::txn::{
    entry_ops, files_changed, files_root, name_weight, next_generation, NewEntryV,
};
use crate::fs::btrfs::write::workspace::fresh_state;
use crate::fs::FileType;
use crate::text::utf8;

verus! {

/// The key of an inode.
pub open spec fn inode_item(ino: u64) -> Key {
    Key { objectid: ino, item_type: 1, offset: 0 }
}

/// The key of an inode's way back to directory `dir`.
pub open spec fn back_item(ino: u64, dir: u64) -> Key {
    Key { objectid: ino, item_type: 12, offset: dir }
}

/// What the operations for a new entry put on a map.
pub proof fn entry_makes(m: Map<Key, Seq<u8>>, e: NewEntryV, inode: Seq<u8>)
    requires
        all_allowed(m, entry_ops(e, inode)),
        e.ino != e.parent,
    ensures
        ({
            let n = map_after_all(m, entry_ops(e, inode));
            let item = dir_item_bytes(e.ino, e.generation, e.kind, utf8(e.name));
            &&& under(n, index_item(e.parent, e.index)) == Some(item)
            &&& under(n, inode_item(e.ino)) == Some(inode)
            &&& under(n, back_item(e.ino, e.parent)) == Some(
                inode_ref_bytes(e.index, utf8(e.name)),
            )
            &&& m.contains_key(inode_item(e.parent)) && n.contains_key(inode_item(e.parent))
            &&& m[inode_item(e.parent)].len() >= 160
            &&& n[inode_item(e.parent)] == patched(
                m[inode_item(e.parent)],
                grown_by(e),
            )
        }),
{
    let ops = entry_ops(e, inode);
    let m1 = map_after(m, ops[0]);
    let m2 = map_after(m1, ops[1]);
    let m3 = map_after(m2, ops[2]);
    let m4 = map_after(m3, ops[3]);
    let m5 = map_after(m4, ops[4]);
    let o0 = ops.take(0);
    let o1 = ops.take(1);
    let o2 = ops.take(2);
    let o3 = ops.take(3);
    let o4 = ops.take(4);
    assert(ops.drop_last() =~= o4);
    assert(o4.drop_last() =~= o3);
    assert(o3.drop_last() =~= o2);
    assert(o2.drop_last() =~= o1);
    assert(o1.drop_last() =~= o0);
    assert(map_after_all(m, o0) == m);
    assert(map_after_all(m, o1) == m1);
    assert(map_after_all(m, o2) == m2);
    assert(map_after_all(m, o3) == m3);
    assert(map_after_all(m, o4) == m4);
    assert(map_after_all(m, ops) == m5);
    assert(all_allowed(m, o4));
    assert(all_allowed(m, o3));
    assert(all_allowed(m, o2));
    assert(all_allowed(m, o1));
    assert(allowed(map_after_all(m, o0), o1.last()));
    assert(allowed(m, ops[0]));
}

/// The change of a directory that gets a new entry: it grows by twice the name's
/// length, and was modified.
pub open spec fn grown_by(e: NewEntryV) -> InodePatch {
    InodePatch {
        generation: e.generation,
        size: SizeEdit::Adjust {
            remove: 0,
            grow: name_weight(e.name),
        },
        sec: e.sec,
        nsec: e.nsec,
        modified: true,
    }
}

/// A new file, or directory, of mode `mode` on the device: inode `ino`, under
/// `name` and the index `index` of directory `dir`.
pub open spec fn is_made(
    fs: FsV,
    gs: FsV,
    dir: u64,
    name: Seq<u8>,
    ino: u64,
    index: u64,
    kind: FileType,
    number: u8,
    mode: u32,
    uid: u32,
    gid: u32,
    sec: u64,
    nsec: u32,
) -> bool {
    let root = gs.fs_tree.bytenr;
    let at = Key { objectid: ino, item_type: 1, offset: 0 };
    let generation = fs.sb.generation + 1;
    &&& entry_in(gs, root, dir, name) == Ok::<Option<DirItemV>, Fault>(
        Some(DirItemV { location: at, file_type: kind, name }),
    )
    &&& disk_item(gs, root, index_item(dir, index)) matches Ok(Some(d)) && stores_entry(
        d,
        EntryFields {
            location: at,
            transid: generation as u64,
            kind: number,
            name,
            data: Seq::empty(),
        },
    )
    &&& disk_item(gs, root, inode_item(ino)) matches Ok(Some(d)) && stores_inode(
        d,
        InodeFields {
            generation: generation as u64,
            transid: generation as u64,
            size: 0,
            nbytes: 0,
            nlink: 1,
            uid,
            gid,
            mode,
            flags: 0,
            sequence: 1,
            atime: (sec, nsec),
            ctime: (sec, nsec),
            mtime: (sec, nsec),
            otime: (sec, nsec),
        },
    )
    &&& disk_item(gs, root, back_item(ino, dir)) matches Ok(Some(d)) && has64(d, 0, index as int)
        && has16(d, 8, name.len() as int) && d.skip(10) == name
}

/// A directory on the device after it got an entry: where its inode said `was`, it
/// says that it is longer by twice the name's length, and was modified at the
/// given time.
pub open spec fn has_grown(
    fs: FsV,
    gs: FsV,
    dir: u64,
    name: Seq<u8>,
    was: InodeFields,
    sec: u64,
    nsec: u32,
) -> bool {
    &&& disk_item(fs, fs.fs_tree.bytenr, inode_item(dir)) matches Ok(Some(_))
    &&& stores_inode(disk_item(fs, fs.fs_tree.bytenr, inode_item(dir))->Ok_0->0, was)
        && was.sequence < u64::MAX && was.size + 2 * name.len() <= u64::MAX ==> {
        &&& disk_item(gs, gs.fs_tree.bytenr, inode_item(dir)) matches Ok(Some(_))
        &&& stores_inode(
            disk_item(gs, gs.fs_tree.bytenr, inode_item(dir))->Ok_0->0,
            InodeFields {
                transid: (fs.sb.generation + 1) as u64,
                size: (was.size + 2 * name.len()) as u64,
                sequence: (was.sequence + 1) as u64,
                ctime: (sec, nsec),
                mtime: (sec, nsec),
                ..was
            },
        )
    }
}

proof fn made_on_device(
    fs: FsV,
    len: Option<u64>,
    space: Seq<BgV>,
    e: NewEntryV,
    kind: FileType,
    mode: u32,
    uid: u32,
    gid: u32,
    seen: Lookups,
    was: InodeFields,
)
    requires
        fit_to_change(fs, space),
        e.generation == next_generation(fs),
        fs.sb.generation < u64::MAX,
        kind == FileType::Regular && e.kind == 1 || kind == FileType::Directory && e.kind == 2,
        ({
            let inode = inode_item_bytes(
                e.generation,
                0,
                0,
                mode,
                uid,
                gid,
                1,
                e.sec,
                e.nsec,
            );
            let ops = entry_ops(e, inode);
            &&& all_low(fs, e.generation, space, ops, seen)
            &&& files_changed(fs, e.generation, space, ops, seen) is Ok
            &&& commits_clear(fs, len, files_changed(fs, e.generation, space, ops, seen)->Ok_0)
        }),
        e.ino != e.parent,
        entry_in(fs, fs.fs_tree.bytenr, e.parent, utf8(e.name)) == Ok::<Option<DirItemV>, Fault>(
            None,
        ),
        utf8(e.name).len() <= u16::MAX,
        fs.fs_tree.level < MAX_DEPTH,
    ensures
        ({
            let inode = inode_item_bytes(
                e.generation,
                0,
                0,
                mode,
                uid,
                gid,
                1,
                e.sec,
                e.nsec,
            );
            let t = files_changed(fs, e.generation, space, entry_ops(e, inode), seen)->Ok_0;
            let gs = committed(fs, len, t)->Ok_0.0;
            &&& is_made(
                fs,
                gs,
                e.parent,
                utf8(e.name),
                e.ino,
                e.index,
                kind,
                e.kind,
                mode,
                uid,
                gid,
                e.sec,
                e.nsec,
            )
            &&& has_grown(fs, gs, e.parent, utf8(e.name), was, e.sec, e.nsec)
        }),
{
    let inode = inode_item_bytes(e.generation, 0, 0, mode, uid, gid, 1, e.sec, e.nsec);
    let ops = entry_ops(e, inode);
    let name = utf8(e.name);
    let t = files_changed(fs, e.generation, space, ops, seen)->Ok_0;
    let m = contents(fs, fresh_state(space), files_root(fs));
    files_change_as_told(fs, e.generation, space, ops, seen);
    created_is_found_on_device(fs, len, space, e, inode, seen);
    entry_makes(m, e, inode);
    found_on_device(fs, len, t, space, index_item(e.parent, e.index));
    found_on_device(fs, len, t, space, inode_item(e.ino));
    found_on_device(fs, len, t, space, back_item(e.ino, e.parent));
    found_on_device(fs, len, t, space, inode_item(e.parent));
    built_entry_is_stored(e.ino, e.generation, e.kind, name);
    built_inode_is_stored(e.generation, 0, 0, mode, uid, gid, 1, e.sec, e.nsec);
    built_ref_is_stored(e.index, name);
    let d = m[inode_item(e.parent)];
    if stores_inode(d, was) && was.sequence < u64::MAX && was.size + 2 * name.len() <= u64::MAX {
        let p = grown_by(e);
        patched_inode_is_stored(d, was, p);
        let (size, nbytes) = choose|size: u64, nbytes: u64| #[trigger]
            resized(was.size, was.nbytes, p.size, size, nbytes) && stores_inode(
                patched(d, p),
                InodeFields {
                    transid: p.generation,
                    size,
                    nbytes,
                    sequence: (was.sequence + 1) as u64,
                    ctime: (p.sec, p.nsec),
                    mtime: if p.modified {
                        (p.sec, p.nsec)
                    } else {
                        was.mtime
                    },
                    ..was
                },
            );
        assert(size == was.size + 2 * name.len());
    }
}

/// Once the creation of a file is committed: the name, which was free, stands for a
/// new regular file of mode 0644, empty, with one link, that belongs to whom its
/// directory belongs, with all times as given; the directory's index and the
/// inode's way back say so too; and the directory has grown by twice the length
/// of the name and was modified.
pub proof fn created_file_is_made(
    fs: FsV,
    len: Option<u64>,
    parent: Seq<char>,
    name: Seq<char>,
    sec: u64,
    nsec: u32,
    seen: Lookups,
    was: InodeFields,
)
    requires
        file_created(fs, parent, name, sec, nsec, seen) is Ok,
        commits_clear(fs, len, file_created(fs, parent, name, sec, nsec, seen)->Ok_0),
        fit_to_make(fs, parent, name, sec, nsec, 0x81A4, 1, false, seen),
    ensures
        ({
            let t = file_created(fs, parent, name, sec, nsec, seen)->Ok_0;
            let gs = committed(fs, len, t)->Ok_0.0;
            let p = resolved(fs, fs.fs_tree, parent)->Ok_0.inode;
            &&& p.kind() == FileType::Directory
            &&& entry_in(fs, fs.fs_tree.bytenr, p.objectid, utf8(name)) == Ok::<
                Option<DirItemV>,
                Fault,
            >(None)
            &&& exists|ino: u64, index: u64|
                is_made(
                    fs,
                    gs,
                    p.objectid,
                    utf8(name),
                    ino,
                    index,
                    FileType::Regular,
                    1,
                    0x81A4,
                    p.uid,
                    p.gid,
                    sec,
                    nsec,
                )
            &&& has_grown(fs, gs, p.objectid, utf8(name), was, sec, nsec)
        }),
{
    let p = resolved(fs, fs.fs_tree, parent)->Ok_0.inode;
    let e = entry_to_make(fs, p.objectid, name, sec, nsec, 1, false);
    let space = space_on(fs)->Ok_0;
    made_on_device(fs, len, space, e, FileType::Regular, 0x81A4, p.uid, p.gid, seen, was);
    let t = file_created(fs, parent, name, sec, nsec, seen)->Ok_0;
    let gs = committed(fs, len, t)->Ok_0.0;
    assert(is_made(
        fs,
        gs,
        p.objectid,
        utf8(name),
        e.ino,
        e.index,
        FileType::Regular,
        1,
        0x81A4,
        p.uid,
        p.gid,
        sec,
        nsec,
    ));
}

/// Once the creation of a directory is committed: as for a file, with mode 0755;
/// the number that is returned is that of the new inode.
pub proof fn created_directory_is_made(
    fs: FsV,
    len: Option<u64>,
    parent: Seq<char>,
    name: Seq<char>,
    sec: u64,
    nsec: u32,
    seen: Lookups,
    was: InodeFields,
)
    requires
        directory_created(fs, parent, name, sec, nsec, seen) is Ok,
        commits_clear(fs, len, directory_created(fs, parent, name, sec, nsec, seen)->Ok_0.0),
        fit_to_make(fs, parent, name, sec, nsec, 0x41ED, 2, true, seen),
    ensures
        ({
            let (t, ino) = directory_created(fs, parent, name, sec, nsec, seen)->Ok_0;
            let gs = committed(fs, len, t)->Ok_0.0;
            let p = resolved(fs, fs.fs_tree, parent)->Ok_0.inode;
            &&& p.kind() == FileType::Directory
            &&& entry_in(fs, fs.fs_tree.bytenr, p.objectid, utf8(name)) == Ok::<
                Option<DirItemV>,
                Fault,
            >(None)
            &&& exists|index: u64|
                is_made(
                    fs,
                    gs,
                    p.objectid,
                    utf8(name),
                    ino,
                    index,
                    FileType::Directory,
                    2,
                    0x41ED,
                    p.uid,
                    p.gid,
                    sec,
                    nsec,
                )
            &&& has_grown(fs, gs, p.objectid, utf8(name), was, sec, nsec)
        }),
{
    let p = resolved(fs, fs.fs_tree, parent)->Ok_0.inode;
    let e = entry_to_make(fs, p.objectid, name, sec, nsec, 2, true);
    let space = space_on(fs)->Ok_0;
    made_on_device(fs, len, space, e, FileType::Directory, 0x41ED, p.uid, p.gid, seen, was);
    let (t, ino) = directory_created(fs, parent, name, sec, nsec, seen)->Ok_0;
    let gs = committed(fs, len, t)->Ok_0.0;
    assert(is_made(
        fs,
        gs,
        p.objectid,
        utf8(name),
        ino,
        e.index,
        FileType::Directory,
        2,
        0x41ED,
        p.uid,
        p.gid,
        sec,
        nsec,
    ));
}

/// The entry that a creation makes.
pub open spec fn entry_to_make(
    fs: FsV,
    dir: u64,
    name: Seq<char>,
    sec: u64,
    nsec: u32,
    kind: u8,
    shares: bool,
) -> NewEntryV {
    let base = new_file_base(fs, dir)->Ok_0;
    NewEntryV {
        generation: next_generation(fs),
        parent: dir,
        ino: base.1,
        index: base.2,
        name,
        kind,
        sec,
        nsec,
        shares,
        missing: "parent inode not found"@,
    }
}

/// A volume that a file or directory can be created on: its trees are in order and
/// stay within reach, the new inode is not its own directory, and the name is not
/// too long.
pub open spec fn fit_to_make(
    fs: FsV,
    parent: Seq<char>,
    name: Seq<char>,
    sec: u64,
    nsec: u32,
    mode: u32,
    kind: u8,
    shares: bool,
    seen: Lookups,
) -> bool {
    let p = resolved(fs, fs.fs_tree, parent)->Ok_0.inode;
    let e = entry_to_make(fs, p.objectid, name, sec, nsec, kind, shares);
    let inode = inode_item_bytes(e.generation, 0, 0, mode, p.uid, p.gid, 1, sec, nsec);
    &&& fit_to_change(fs, space_on(fs)->Ok_0)
    &&& all_low(fs, e.generation, space_on(fs)->Ok_0, entry_ops(e, inode), seen)
    &&& e.ino != e.parent
    &&& utf8(name).len() <= u16::MAX
    &&& fs.fs_tree.level < MAX_DEPTH
    &&& fs.sb.generation < u64::MAX
}

} // verus!
