//! What is written into a file is on the device, where the file says.

use vstd::prelude::*;

use crate::bytes::{enc32, enc64, group_enc_len, le32_of_enc, le64_of_enc, splice};
use crate::device::{image_read, DeviceOp};
use crate::error::{Fault, Outcome};
use crate::fs::btrfs::chunk::{locate, ChunkV};
use crate::fs::btrfs::extent::{parse_extent, ExtentKind, FileExtent};
use crate::fs::btrfs::files::{disk_item, entry_in, entry_key, inode_of};
use crate::fs::btrfs::inode::{parse_inode, DirItemV, Inode};
use crate::fs::btrfs::search::MAX_DEPTH;
use crate::fs::btrfs::tree::{Key, EXTENT_DATA_KEY};
use crate::fs::btrfs::volume::FsV;
use crate::fs::btrfs::write::change::{
    commits_clear, files_gain_as_told, files_of, fit_for_data, write_low,
};
use crate::fs::btrfs::write::commit::{
    block_script, commit_script, committed, data_script, played, template_of,
};
use crate::fs::btrfs::write::converge::Lookups;
use crate::fs::btrfs::write::creation::{entry_on_map, new_entry_found};
use crate::fs::btrfs::write::edit::{patched, InodePatch, SizeEdit};
use crate::fs::btrfs::write::entries::new_dir_item;
use crate::fs::btrfs::write::grove::state_of;
use crate::fs::btrfs::write::load::space_on;
use crate::fs::btrfs::write::payload::{file_extent_bytes, inode_item_bytes};
use crate::fs::btrfs::write::readback::{clear_cut, committed_is_found, write_reads_back};
use crate::fs::btrfs::write::space::BgV;
use crate::fs::btrfs::write::stamping::{changed_at, modified_at, patched_time_reads_back};
use crate::fs::btrfs::write::tree_map::{
    all_allowed, allowed, contents, map_after, map_after_all, search_reads_contents,
};
use crate::fs::btrfs::write::txn::data::{
    data_placed, data_target, disk_len, extent_op, file_written, full_file_created, padded,
    with_extent,
};
use crate::fs::btrfs::write::txn::create::{directory_at, new_file_base, FILE_MODE};
use crate::fs::btrfs::write::txn::{
    entry_ops, files_root, inode_key, next_generation, touch, NewEntryV, TxnV,
};
use crate::fs::btrfs::write::workspace::{fresh_state, OpV};
use crate::text::utf8;

verus! {

/// A script that was played to the end has no fault in it.
proof fn no_fault_in(disk: Seq<u8>, s: Seq<Outcome<DeviceOp>>, i: int)
    requires
        played(disk, s).fault is None,
        0 <= i < s.len(),
    ensures
        s[i] is Ok,
    decreases s.len(),
{
    if i < s.len() - 1 {
        no_fault_in(disk, s.drop_last(), i);
        assert(s.drop_last()[i] == s[i]);
    }
}

/// Where the writes for one piece of data stand in the script.
proof fn data_script_at(chunks: Seq<ChunkV>, data: Seq<(u64, Seq<u8>)>, i: int) -> (at: int)
    requires
        0 <= i < data.len(),
    ensures
        0 <= at,
        at + block_script(chunks, data[i].0, data[i].1).len() <= data_script(chunks, data).len(),
        forall|j: int|
            0 <= j < block_script(chunks, data[i].0, data[i].1).len() ==> data_script(
                chunks,
                data,
            )[at + j] == #[trigger] block_script(chunks, data[i].0, data[i].1)[j],
    decreases data.len(),
{
    let front = data.drop_last();
    if i == data.len() - 1 {
        data_script(chunks, front).len() as int
    } else {
        assert(front[i] == data[i]);
        let at = data_script_at(chunks, front, i);
        assert forall|j: int|
            0 <= j < block_script(chunks, data[i].0, data[i].1).len() implies data_script(
            chunks,
            data,
        )[at + j] == #[trigger] block_script(chunks, data[i].0, data[i].1)[j] by {
            assert(data_script(chunks, front)[at + j] == block_script(
                chunks,
                data[i].0,
                data[i].1,
            )[j]);
        }
        at
    }
}

/// After a commit every copy of a piece of file data reads as the transaction
/// had it.
pub proof fn data_reads_back(fs: FsV, len: Option<u64>, t: TxnV, i: int)
    requires
        committed(fs, len, t) is Ok,
        clear_cut(commit_script(fs, len, t, template_of(fs)->Ok_0)),
        0 <= i < t.data.len(),
    ensures
        locate(fs.chunks, t.data[i].0) matches Ok((places, _)) && forall|j: int|
            0 <= j < places.len() ==> image_read(
                committed(fs, len, t)->Ok_0.0.disk,
                #[trigger] places[j] as int,
                t.data[i].1.len() as int,
            ) == Ok::<Seq<u8>, Fault>(t.data[i].1),
{
    let s = commit_script(fs, len, t, template_of(fs)->Ok_0);
    let gs = committed(fs, len, t)->Ok_0.0;
    let d = data_script(fs.chunks, t.data);
    let raw = t.data[i].1;
    let n = raw.len() as int;
    let b = block_script(fs.chunks, t.data[i].0, raw);
    let at = data_script_at(fs.chunks, t.data, i);
    assert forall|j: int| 0 <= j < b.len() implies s[at + j] == #[trigger] b[j] by {
        assert(d[at + j] == b[j]);
    }
    match locate(fs.chunks, t.data[i].0) {
        Err(e) => {
            assert(b[0] == Err::<DeviceOp, Fault>(e));
            assert(s[at + 0] == b[0]);
            no_fault_in(fs.disk, s, at);
        },
        Ok((places, run)) => {
            assert forall|j: int| 0 <= j < places.len() implies image_read(
                gs.disk,
                #[trigger] places[j] as int,
                n,
            ) == Ok::<Seq<u8>, Fault>(raw) by {
                let p = places[j] as int;
                let w = Ok::<DeviceOp, Fault>(DeviceOp::Write { offset: p, data: raw });
                assert(b[j] == w);
                assert(s[at + j] == w);
                write_reads_back(fs.disk, s, at + j, p, raw);
            }
        },
    }
}

/// A file extent item reads back as the extent it was made for.
pub proof fn extent_reads_back(
    file_offset: u64,
    generation: u64,
    ram_bytes: u64,
    at: u64,
    disk_bytes: u64,
    bytes: u64,
)
    ensures
        parse_extent(
            file_offset,
            file_extent_bytes(generation, ram_bytes, at, disk_bytes, bytes),
        ) == Ok::<FileExtent, Fault>(
            FileExtent {
                file_offset,
                generation,
                ram_bytes,
                compression: 0,
                kind: ExtentKind::Regular,
                disk_bytenr: at,
                disk_num_bytes: disk_bytes,
                offset: 0,
                num_bytes: bytes,
            },
        ),
{
    broadcast use group_enc_len;

    let d = file_extent_bytes(generation, ram_bytes, at, disk_bytes, bytes);
    assert(d.len() == 53);
    assert(d[16] == 0);
    assert(d[20] == 1);
    assert(d.subrange(0, 8) =~= enc64(generation));
    assert(d.subrange(8, 16) =~= enc64(ram_bytes));
    assert(d.subrange(21, 29) =~= enc64(at));
    assert(d.subrange(29, 37) =~= enc64(disk_bytes));
    assert(d.subrange(37, 45) =~= enc64(0));
    assert(d.subrange(45, 53) =~= enc64(bytes));
    le64_of_enc(d, 0, generation);
    le64_of_enc(d, 8, ram_bytes);
    le64_of_enc(d, 21, at);
    le64_of_enc(d, 29, disk_bytes);
    le64_of_enc(d, 37, 0);
    le64_of_enc(d, 45, bytes);
}

/// A patched inode item has the size that the patch records.
pub proof fn patched_size_reads_back(ino: u64, d: Seq<u8>, p: InodePatch, size: u64, nbytes: u64)
    requires
        d.len() >= 160,
        p.size == (SizeEdit::Record { size, nbytes }),
    ensures
        parse_inode(ino, patched(d, p)) matches Ok(i) && i.size == size && i.nbytes == nbytes,
{
    broadcast use group_enc_len;

    let r = patched(d, p);
    let a = splice(d, 8, enc64(p.generation));
    let b = splice(a, 16, enc64(size));
    assert(r.len() == d.len());
    assert(r.subrange(16, 24) =~= enc64(size));
    assert(r.subrange(24, 32) =~= enc64(nbytes));
    le64_of_enc(r, 16, size);
    le64_of_enc(r, 24, nbytes);
}

/// Whole sectors cover what they are for.
pub proof fn sectors_cover(n: int, sector: u32)
    requires
        sector > 0,
        0 <= n <= u64::MAX,
    ensures
        disk_len(n, sector) >= n,
{
    let s = sector as int;
    vstd::arithmetic::div_mod::lemma_fundamental_div_mod(n, s);
    vstd::arithmetic::mul::lemma_mul_is_commutative(s, n / s);
    vstd::arithmetic::mul::lemma_mul_is_distributive_add_other_way(s, n / s, 1);
}

/// No sectors are taken just where there is nothing to hold.
proof fn sectors_for_nothing(n: int, sector: u32)
    requires
        sector > 0,
        0 <= n <= u64::MAX,
    ensures
        disk_len(n, sector) == 0 <==> n == 0,
{
    sectors_cover(n, sector);
    if n == 0 {
        let s = sector as int;
        vstd::arithmetic::div_mod::lemma_div_basics(s);
        vstd::arithmetic::div_mod::lemma_small_mod(0, sector as nat);
        assert(0int / s == 0);
        assert(0 * s == 0) by (nonlinear_arith);
    }
}

/// A new inode item reads back as what it was made of.
pub proof fn new_inode_reads_back(
    ino: u64,
    generation: u64,
    size: u64,
    nbytes: u64,
    mode: u32,
    uid: u32,
    gid: u32,
    nlink: u32,
    sec: u64,
    nsec: u32,
)
    ensures
        parse_inode(
            ino,
            inode_item_bytes(generation, size, nbytes, mode, uid, gid, nlink, sec, nsec),
        ) == Ok::<Inode, Fault>(
            Inode {
                objectid: ino,
                generation,
                size,
                nbytes,
                nlink,
                uid,
                gid,
                mode,
                flags: 0,
            },
        ),
        ({
            let d = inode_item_bytes(generation, size, nbytes, mode, uid, gid, nlink, sec, nsec);
            modified_at(d, sec, nsec) && changed_at(d, sec, nsec)
        }),
{
    broadcast use group_enc_len;

    let d = inode_item_bytes(generation, size, nbytes, mode, uid, gid, nlink, sec, nsec);
    assert(d.len() == 160);
    assert(d.subrange(0, 8) =~= enc64(generation));
    assert(d.subrange(16, 24) =~= enc64(size));
    assert(d.subrange(24, 32) =~= enc64(nbytes));
    assert(d.subrange(40, 44) =~= enc32(nlink));
    assert(d.subrange(44, 48) =~= enc32(uid));
    assert(d.subrange(48, 52) =~= enc32(gid));
    assert(d.subrange(52, 56) =~= enc32(mode));
    assert(d.subrange(64, 72) =~= enc64(0));
    assert(d.subrange(124, 132) =~= enc64(sec));
    assert(d.subrange(132, 136) =~= enc32(nsec));
    assert(d.subrange(136, 144) =~= enc64(sec));
    assert(d.subrange(144, 148) =~= enc32(nsec));
    le64_of_enc(d, 124, sec);
    le32_of_enc(d, 132, nsec);
    le64_of_enc(d, 136, sec);
    le32_of_enc(d, 144, nsec);
    le64_of_enc(d, 0, generation);
    le64_of_enc(d, 16, size);
    le64_of_enc(d, 24, nbytes);
    le32_of_enc(d, 40, nlink);
    le32_of_enc(d, 44, uid);
    le32_of_enc(d, 48, gid);
    le32_of_enc(d, 52, mode);
    le64_of_enc(d, 64, 0);
}

/// The key of the extent at the start of a file.
pub open spec fn first_extent(ino: u64) -> Key {
    Key { objectid: ino, item_type: EXTENT_DATA_KEY, offset: 0 }
}

/// At the start of inode `ino` there is an extent, as long as `content` takes
/// whole sectors, every copy of which begins with `content`.
pub open spec fn placed_at_front(gs: FsV, ino: u64, content: Seq<u8>) -> bool {
    disk_item(gs, gs.fs_tree.bytenr, first_extent(ino)) matches Ok(Some(d)) && (parse_extent(
        0,
        d,
    ) matches Ok(x) && {
        &&& x.kind == ExtentKind::Regular
        &&& x.compression == 0
        &&& x.offset == 0
        &&& x.num_bytes == disk_len(content.len() as int, gs.sb.sector_size)
        &&& x.disk_num_bytes == x.num_bytes
        &&& locate(gs.chunks, x.disk_bytenr) matches Ok((places, _)) && forall|j: int|
            0 <= j < places.len() ==> image_read(
                gs.disk,
                #[trigger] places[j] as int,
                content.len() as int,
            ) == Ok::<Seq<u8>, Fault>(content)
    })
}

/// The volume has `content` as the content of inode `ino`: the inode records
/// its length and the bytes of the whole sectors that it takes; and, unless the
/// content is empty, at the start of the file there is an extent of these
/// sectors, every copy of which begins with the content.
pub open spec fn stored(gs: FsV, ino: u64, content: Seq<u8>) -> bool {
    &&& inode_of(gs, gs.fs_tree.bytenr, ino) matches Ok(i) && i.size == content.len() && i.nbytes
        == disk_len(content.len() as int, gs.sb.sector_size)
    &&& content.len() > 0 ==> placed_at_front(gs, ino, content)
}

/// A transaction whose files hold an inode item with the size and the extent
/// item of `content` stores the content once it is committed.
proof fn stored_once_committed(
    fs: FsV,
    len: Option<u64>,
    t: TxnV,
    ino: u64,
    at: u64,
    generation: u64,
    content: Seq<u8>,
    inode: Seq<u8>,
)
    requires
        committed(fs, len, t) is Ok,
        clear_cut(commit_script(fs, len, t, template_of(fs)->Ok_0)),
        content.len() > 0 ==> t.data == seq![(at, padded(content, fs.sb.sector_size))],
        disk_item(
            committed(fs, len, t)->Ok_0.0,
            t.fs_tree.bytenr,
            inode_key(ino),
        ) == Ok::<Option<Seq<u8>>, Fault>(Some(inode)),
        parse_inode(ino, inode) matches Ok(i) && i.size == content.len() && i.nbytes == disk_len(
            content.len() as int,
            fs.sb.sector_size,
        ),
        content.len() > 0 ==> ({
            let n = disk_len(content.len() as int, fs.sb.sector_size);
            disk_item(
                committed(fs, len, t)->Ok_0.0,
                t.fs_tree.bytenr,
                first_extent(ino),
            ) == Ok::<Option<Seq<u8>>, Fault>(Some(file_extent_bytes(generation, n, at, n, n)))
        }),
    ensures
        stored(committed(fs, len, t)->Ok_0.0, ino, content),
{
    let gs = committed(fs, len, t)->Ok_0.0;
    let full = padded(content, fs.sb.sector_size);
    let n = disk_len(content.len() as int, fs.sb.sector_size);
    assert(gs.sb.sector_size == fs.sb.sector_size);
    if content.len() > 0 {
        extent_reads_back(0, generation, n, at, n, n);
        data_reads_back(fs, len, t, 0);
        assert(t.data[0] == (at, full));
        let places = locate(fs.chunks, at)->Ok_0.0;
        assert forall|j: int| 0 <= j < places.len() implies image_read(
            gs.disk,
            #[trigger] places[j] as int,
            content.len() as int,
        ) == Ok::<Seq<u8>, Fault>(content) by {
            let p = places[j] as int;
            assert(image_read(gs.disk, p, full.len() as int) == Ok::<Seq<u8>, Fault>(full));
            assert(gs.disk.subrange(p, p + content.len()) =~= gs.disk.subrange(
                p,
                p + full.len(),
            ).take(content.len() as int));
            assert(full.take(content.len() as int) =~= content);
        }
    }
}

/// The inode patch that goes with new content.
pub open spec fn content_patch(fs: FsV, content: Seq<u8>, sec: u64, nsec: u32) -> InodePatch {
    InodePatch {
        generation: next_generation(fs),
        size: SizeEdit::Record {
            size: content.len() as u64,
            nbytes: disk_len(content.len() as int, fs.sb.sector_size),
        },
        sec,
        nsec,
        modified: true,
    }
}

/// The operation on the files that goes with new content.
pub open spec fn content_ops(fs: FsV, ino: u64, content: Seq<u8>, sec: u64, nsec: u32) -> Seq<OpV> {
    seq![
        touch(
            ino,
            content_patch(fs, content, sec, nsec),
            "inode not found"@,
            "inode item truncated"@,
        ),
    ]
}

/// A volume that `content` can be written on into the file at `path`: its trees
/// are in order and stay within reach.
pub open spec fn fit_to_write(
    fs: FsV,
    path: Seq<char>,
    content: Seq<u8>,
    sec: u64,
    nsec: u32,
    seen: Lookups,
) -> bool {
    let ino = data_target(fs, path)->Ok_0.inode.objectid;
    let (at, space) = data_placed(
        space_on(fs)->Ok_0,
        content.len() as int,
        fs.sb.sector_size,
    )->Some_0;
    &&& fit_for_data(fs, space, seen.csum)
    &&& files_root(fs).1 < MAX_DEPTH
    &&& write_low(
        fs,
        next_generation(fs),
        space,
        content_ops(fs, ino, content, sec, nsec),
        ino,
        at,
        content,
        seen,
    )
}

/// Once the transaction that writes `content` into a file is committed, the
/// device has the content where the file says it is, and the file's times are
/// the one that was given.
///
/// No device write of the commit damages another.
pub proof fn written_is_stored(
    fs: FsV,
    len: Option<u64>,
    path: Seq<char>,
    content: Seq<u8>,
    sec: u64,
    nsec: u32,
    seen: Lookups,
)
    requires
        file_written(fs, path, content, sec, nsec, seen) is Ok,
        fit_to_write(fs, path, content, sec, nsec, seen),
        fs.sb.sector_size > 0,
        content.len() <= u64::MAX,
        ({
            let t = file_written(fs, path, content, sec, nsec, seen)->Ok_0;
            commits_clear(fs, len, t)
        }),
    ensures
        ({
            let t = file_written(fs, path, content, sec, nsec, seen)->Ok_0;
            let gs = committed(fs, len, t)->Ok_0.0;
            let ino = data_target(fs, path)->Ok_0.inode.objectid;
            &&& stored(gs, ino, content)
            &&& disk_item(gs, gs.fs_tree.bytenr, inode_key(ino)) matches Ok(Some(d))
                && modified_at(d, sec, nsec) && changed_at(d, sec, nsec)
        }),
{
    let t = file_written(fs, path, content, sec, nsec, seen)->Ok_0;
    let g = next_generation(fs);
    let ino = data_target(fs, path)->Ok_0.inode.objectid;
    let (at, space) = data_placed(
        space_on(fs)->Ok_0,
        content.len() as int,
        fs.sb.sector_size,
    )->Some_0;
    let n = disk_len(content.len() as int, fs.sb.sector_size);
    let ops = content_ops(fs, ino, content, sec, nsec);
    let all = with_extent(ops, g, ino, at, n);
    let m = contents(fs, fresh_state(space), files_root(fs));
    sectors_cover(content.len() as int, fs.sb.sector_size);
    files_gain_as_told(fs, g, space, ops, ino, at, content, seen);
    sectors_for_nothing(content.len() as int, fs.sb.sector_size);
    if n > 0 {
        assert(all.drop_last() =~= ops);
    }
    assert(ops.drop_last() =~= Seq::<OpV>::empty());
    assert(map_after_all(m, ops.drop_last()) == m);
    assert(all_allowed(m, ops));
    assert(allowed(m, ops[0]));
    let p = content_patch(fs, content, sec, nsec);
    let old = m[inode_key(ino)];
    let inode = patched(old, p);
    let m1 = map_after(m, ops[0]);
    assert(m1 == m.insert(inode_key(ino), inode));
    assert(map_after_all(m, ops) == m1);
    let m2 = map_after_all(m, all);
    assert(m2 == if n > 0 {
        map_after(m1, extent_op(g, ino, at, n))
    } else {
        m1
    });
    patched_size_reads_back(ino, old, p, content.len() as u64, n);
    patched_time_reads_back(old, p);
    search_reads_contents(fs, state_of(t), files_of(t), inode_key(ino));
    search_reads_contents(fs, state_of(t), files_of(t), first_extent(ino));
    committed_is_found(fs, len, t, files_of(t), inode_key(ino));
    committed_is_found(fs, len, t, files_of(t), first_extent(ino));
    stored_once_committed(fs, len, t, ino, at, g, content, inode);
}

/// The entry of a file that is created with content.
pub open spec fn filled_entry(fs: FsV, parent_path: Seq<char>, name: Seq<char>, sec: u64, nsec: u32) -> NewEntryV {
    let p = directory_at(fs, parent_path, "subvolume file creation not yet supported"@)->Ok_0;
    let base = new_file_base(fs, p.inode.objectid)->Ok_0;
    NewEntryV {
        generation: next_generation(fs),
        parent: p.inode.objectid,
        ino: base.1,
        index: base.2,
        name,
        kind: 1,
        sec,
        nsec,
        shares: false,
        missing: "parent inode not found"@,
    }
}

/// The inode item of a file that is created with content.
pub open spec fn filled_inode(
    fs: FsV,
    parent_path: Seq<char>,
    content: Seq<u8>,
    sec: u64,
    nsec: u32,
) -> Seq<u8> {
    let p = directory_at(fs, parent_path, "subvolume file creation not yet supported"@)->Ok_0;
    inode_item_bytes(
        next_generation(fs),
        content.len() as u64,
        disk_len(content.len() as int, fs.sb.sector_size),
        FILE_MODE,
        p.inode.uid,
        p.inode.gid,
        1,
        sec,
        nsec,
    )
}

/// Where the content of a file that is created with it goes, and the allocator
/// after that.
pub open spec fn filled_at(fs: FsV, content: Seq<u8>) -> (u64, Seq<BgV>) {
    data_placed(space_on(fs)->Ok_0, content.len() as int, fs.sb.sector_size)->Some_0
}

/// A volume that a file can be created on with `content`: its trees are in
/// order and stay within reach, and the new inode number is not the directory's.
pub open spec fn fit_to_fill(
    fs: FsV,
    parent_path: Seq<char>,
    name: Seq<char>,
    content: Seq<u8>,
    sec: u64,
    nsec: u32,
    seen: Lookups,
) -> bool {
    let e = filled_entry(fs, parent_path, name, sec, nsec);
    let (at, space) = filled_at(fs, content);
    &&& fit_for_data(fs, space, seen.csum)
    &&& files_root(fs).1 < MAX_DEPTH
    &&& e.ino != e.parent
    &&& write_low(
        fs,
        e.generation,
        space,
        entry_ops(e, filled_inode(fs, parent_path, content, sec, nsec)),
        e.ino,
        at,
        content,
        seen,
    )
}

/// Once the transaction that creates a file with `content` is committed, the
/// name is found in the directory on the device and leads to an inode whose
/// content is there, too; its times are the one that was given.
///
/// No device write of the commit damages another.
pub proof fn filled_is_stored(
    fs: FsV,
    len: Option<u64>,
    parent_path: Seq<char>,
    name: Seq<char>,
    content: Seq<u8>,
    sec: u64,
    nsec: u32,
    seen: Lookups,
)
    requires
        full_file_created(fs, parent_path, name, content, sec, nsec, seen) is Ok,
        fit_to_fill(fs, parent_path, name, content, sec, nsec, seen),
        fs.sb.sector_size > 0,
        content.len() <= u64::MAX,
        utf8(name).len() <= u16::MAX,
        ({
            let t = full_file_created(fs, parent_path, name, content, sec, nsec, seen)->Ok_0.0;
            commits_clear(fs, len, t)
        }),
    ensures
        ({
            let (t, ino) = full_file_created(
                fs,
                parent_path,
                name,
                content,
                sec,
                nsec,
                seen,
            )->Ok_0;
            let gs = committed(fs, len, t)->Ok_0.0;
            let dir = filled_entry(fs, parent_path, name, sec, nsec).parent;
            &&& entry_in(gs, gs.fs_tree.bytenr, dir, utf8(name)) == Ok::<Option<DirItemV>, Fault>(
                Some(new_dir_item(ino, 1, utf8(name))),
            )
            &&& stored(gs, ino, content)
            &&& disk_item(gs, gs.fs_tree.bytenr, inode_key(ino)) matches Ok(Some(d))
                && modified_at(d, sec, nsec) && changed_at(d, sec, nsec)
        }),
{
    let (t, ino) = full_file_created(fs, parent_path, name, content, sec, nsec, seen)->Ok_0;
    let gs = committed(fs, len, t)->Ok_0.0;
    let e = filled_entry(fs, parent_path, name, sec, nsec);
    let inode = filled_inode(fs, parent_path, content, sec, nsec);
    let (at, space) = filled_at(fs, content);
    let n = disk_len(content.len() as int, fs.sb.sector_size);
    let ops = entry_ops(e, inode);
    let all = with_extent(ops, e.generation, ino, at, n);
    let s0 = fresh_state(space);
    let m = contents(fs, s0, files_root(fs));
    let key = entry_key(e.parent, utf8(name));
    let p = directory_at(fs, parent_path, "subvolume file creation not yet supported"@)->Ok_0;
    sectors_cover(content.len() as int, fs.sb.sector_size);
    sectors_for_nothing(content.len() as int, fs.sb.sector_size);
    files_gain_as_told(fs, e.generation, space, ops, ino, at, content, seen);
    if n > 0 {
        assert(all.drop_last() =~= ops);
    }
    entry_on_map(m, e, inode);
    search_reads_contents(fs, s0, files_root(fs), key);
    new_inode_reads_back(
        ino,
        e.generation,
        content.len() as u64,
        n,
        FILE_MODE,
        p.inode.uid,
        p.inode.gid,
        1,
        sec,
        nsec,
    );
    search_reads_contents(fs, state_of(t), files_of(t), key);
    search_reads_contents(fs, state_of(t), files_of(t), inode_key(ino));
    search_reads_contents(fs, state_of(t), files_of(t), first_extent(ino));
    committed_is_found(fs, len, t, files_of(t), key);
    committed_is_found(fs, len, t, files_of(t), inode_key(ino));
    committed_is_found(fs, len, t, files_of(t), first_extent(ino));
    new_entry_found(fs, gs, gs.fs_tree.bytenr, e);
    stored_once_committed(fs, len, t, ino, at, e.generation, content, inode);
}

} // verus!
