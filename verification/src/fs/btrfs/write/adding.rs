//! What a file that is added to a batch is: its entry, its inode, its way back and
//! its extents, one behind the other.

use vstd::prelude::*;

use crate::bytes::{has16, has64};
use crate::error::Fault;
use crate::fs::btrfs::extent::{ExtentKind, FileExtent};
use crate::fs::btrfs::files::entry_key;
use crate::fs::btrfs::formats::{
    built_entry_is_stored, built_extent_is_stored, built_inode_is_stored, built_ref_is_stored,
    entry_reads_back, stores_entry, stores_extent, stores_inode, EntryFields, InodeFields,
};
use crate::fs::btrfs::inode::{any_named, dir_entries, has_name};
use crate::fs::btrfs::search::{find_item, MAX_DEPTH};
use crate::fs::btrfs::tree::Key;
use crate::fs::btrfs::volume::FsV;
use crate::fs::btrfs::write::batch::{
    batch_name_free, file_added, index_taken, run_ops, runs_len, runs_taken, BatchV, WrittenV,
};
use crate::fs::btrfs::write::batching::{
    added_dir, added_entry, added_inode, added_is_found, added_ops, adding_low, batch_fit,
    batch_grows_as_told,
};
use crate::fs::btrfs::write::change::{allowed_parts, map_after_parts, op_key, ops_elsewhere};
use crate::fs::btrfs::write::making::{back_item, entry_makes, inode_item};
use crate::fs::btrfs::write::moving::index_item;
use crate::fs::btrfs::write::placing::runs_sum;
use crate::fs::btrfs::write::tree_map::{
    contents, map_after_all, search_reads_contents,
};
use crate::fs::btrfs::write::txn::entry_ops;
use crate::seqs::first_idx_is;
use crate::text::utf8;

verus! {

/// What a batch's tree of the files holds under a key.
pub open spec fn item_in(fs: FsV, b: BatchV, k: Key) -> Option<Seq<u8>> {
    match find_item(fs, b.state.pending, b.fs_root.0, k) {
        Ok(d) => d,
        Err(_) => None,
    }
}

/// Where no run is cut off, the lengths of runs are their sum.
proof fn runs_len_is_sum(runs: Seq<(u64, u64)>)
    requires
        runs_sum(runs) <= u64::MAX,
    ensures
        runs_len(runs) == runs_sum(runs),
        runs_sum(runs) >= 0,
    decreases runs.len(),
{
    if runs.len() > 0 {
        sum_is_positive(runs.drop_last());
        runs_len_is_sum(runs.drop_last());
    }
}

proof fn sum_is_positive(runs: Seq<(u64, u64)>)
    ensures
        runs_sum(runs) >= 0,
    decreases runs.len(),
{
    if runs.len() > 0 {
        sum_is_positive(runs.drop_last());
    }
}

proof fn sum_grows(runs: Seq<(u64, u64)>, i: int)
    requires
        0 <= i <= runs.len(),
    ensures
        0 <= runs_sum(runs.take(i)) <= runs_sum(runs),
    decreases runs.len(),
{
    sum_is_positive(runs.take(i));
    if i < runs.len() {
        sum_grows(runs.drop_last(), i);
        assert(runs.drop_last().take(i) =~= runs.take(i));
    } else {
        assert(runs.take(i) =~= runs);
    }
}

proof fn run_ops_are_extents(g: u64, ino: u64, runs: Seq<(u64, u64)>)
    ensures
        forall|j: int|
            0 <= j < run_ops(g, ino, runs).len() ==> (op_key(
                #[trigger] run_ops(g, ino, runs)[j],
            ).item_type == 108),
    decreases runs.len(),
{
    if runs.len() > 0 {
        run_ops_are_extents(g, ino, runs.drop_last());
        let s = run_ops(g, ino, runs.drop_last());
        let ops = run_ops(g, ino, runs);
        assert forall|j: int| 0 <= j < ops.len() implies op_key(#[trigger] ops[j]).item_type
            == 108 by {
            if j < s.len() {
                assert(ops[j] == s[j]);
            }
        }
    }
}

/// A file that was added to a batch is, in the batch: an entry of its directory, by
/// name and by index, that leads to an inode of its own; the inode of a regular
/// file of mode 0644 with one link, as long as what was written, with the bytes of
/// all its runs, that belongs to whom its directory belongs, with the times that
/// were given; and a way back from it. The next file has the next number and, in
/// the same directory, the next index.
pub proof fn added_file_is_made(fs: FsV, b: BatchV, f: WrittenV, seen: bool)
    requires
        batch_fit(fs, b, seen),
        adding_low(fs, b, f, seen),
        file_added(fs, b, f, seen) is Ok,
        added_dir(fs, b, f).0 != b.next_ino,
        b.fs_root.1 < MAX_DEPTH,
        file_added(fs, b, f, seen)->Ok_0.0.fs_root.1 < MAX_DEPTH,
        utf8(f.name).len() <= u16::MAX,
        runs_sum(f.runs) <= u64::MAX,
        b.next_ino < u64::MAX,
    ensures
        ({
            let (c, ino) = file_added(fs, b, f, seen)->Ok_0;
            let (dir, uid, gid) = added_dir(fs, b, f);
            let name = utf8(f.name);
            let entry = EntryFields {
                location: Key { objectid: ino, item_type: 1, offset: 0 },
                transid: b.generation,
                kind: 1,
                name,
                data: Seq::empty(),
            };
            let inode = InodeFields {
                generation: b.generation,
                transid: b.generation,
                size: f.written,
                nbytes: runs_sum(f.runs) as u64,
                nlink: 1,
                uid,
                gid,
                mode: 0x81A4,
                flags: 0,
                sequence: 1,
                atime: (f.sec, f.nsec),
                ctime: (f.sec, f.nsec),
                mtime: (f.sec, f.nsec),
                otime: (f.sec, f.nsec),
            };
            &&& item_in(fs, c, inode_item(ino)) matches Some(d) && stores_inode(d, inode)
            &&& ino == b.next_ino
            &&& c.next_ino == ino + 1
            &&& exists|index: u64|
                {
                    &&& item_in(fs, c, #[trigger] index_item(dir, index)) matches Some(d)
                        && stores_entry(d, entry)
                    &&& item_in(fs, c, back_item(ino, dir)) matches Some(d) && has64(
                        d,
                        0,
                        index as int,
                    ) && has16(d, 8, name.len() as int) && d.skip(10) == name
                    &&& index < u64::MAX ==> (index_taken(fs, c.next_index, dir) matches Ok(next)
                        && next.0 == index + 1)
                }
        }),
{
    let (c, ino) = file_added(fs, b, f, seen)->Ok_0;
    let e = added_entry(fs, b, f);
    let name = utf8(f.name);
    let inode = added_inode(fs, b, f);
    let m = contents(fs, b.state, b.fs_root);
    let ops = added_ops(fs, b, f);
    let first = entry_ops(e, inode);
    let runs = run_ops(b.generation, ino, f.runs);
    batch_grows_as_told(fs, b, f, seen);
    assert(ops == first + runs);
    allowed_parts(m, first, runs);
    map_after_parts(m, first, runs);
    entry_makes(m, e, inode);
    run_ops_are_extents(b.generation, ino, f.runs);
    let a = map_after_all(m, first);
    ops_elsewhere(a, runs, inode_item(ino));
    ops_elsewhere(a, runs, index_item(e.parent, e.index));
    ops_elsewhere(a, runs, back_item(ino, e.parent));
    search_reads_contents(fs, c.state, c.fs_root, inode_item(ino));
    search_reads_contents(fs, c.state, c.fs_root, index_item(e.parent, e.index));
    search_reads_contents(fs, c.state, c.fs_root, back_item(ino, e.parent));
    runs_len_is_sum(f.runs);
    let (dir, uid, gid) = added_dir(fs, b, f);
    built_inode_is_stored(
        b.generation,
        f.size(),
        runs_len(f.runs),
        0x81A4,
        uid,
        gid,
        1,
        f.sec,
        f.nsec,
    );
    built_entry_is_stored(ino, b.generation, 1, name);
    built_ref_is_stored(e.index, name);
    assert(f.size() == f.written);
    assert(item_in(fs, c, index_item(dir, e.index)) is Some);
}

/// The data of a file that was added to a batch is found run behind run: at the
/// place in the file where the runs before it end there is an extent item, of a
/// written extent that is the whole run.
pub proof fn added_run_is_mapped(fs: FsV, b: BatchV, f: WrittenV, seen: bool, i: int)
    requires
        batch_fit(fs, b, seen),
        adding_low(fs, b, f, seen),
        file_added(fs, b, f, seen) is Ok,
        added_dir(fs, b, f).0 != b.next_ino,
        b.fs_root.1 < MAX_DEPTH,
        file_added(fs, b, f, seen)->Ok_0.0.fs_root.1 < MAX_DEPTH,
        runs_sum(f.runs) <= u64::MAX,
        0 <= i < f.runs.len(),
        f.runs[i].1 > 0,
    ensures
        ({
            let (c, ino) = file_added(fs, b, f, seen)->Ok_0;
            let (at, len) = f.runs[i];
            let place = runs_sum(f.runs.take(i)) as u64;
            let k = Key { objectid: ino, item_type: 108, offset: place };
            item_in(fs, c, k) matches Some(d) && stores_extent(
                d,
                FileExtent {
                    file_offset: 0,
                    generation: b.generation,
                    ram_bytes: len,
                    compression: 0,
                    kind: ExtentKind::Regular,
                    disk_bytenr: at,
                    disk_num_bytes: len,
                    offset: 0,
                    num_bytes: len,
                },
            )
        }),
{
    added_is_found(fs, b, f, seen, inode_item(0), i);
    sum_grows(f.runs, i);
    runs_len_is_sum(f.runs.take(i));
    let (at, len) = f.runs[i];
    built_extent_is_stored(b.generation, len, at, len, len);
}

/// A name that the directory has, on the device or in the batch, is not added
/// again.
pub proof fn name_is_added_once(
    fs: FsV,
    b: BatchV,
    f: WrittenV,
    seen: bool,
    d: Seq<u8>,
    e: EntryFields,
)
    requires
        file_added(fs, b, f, seen) is Ok,
        runs_taken(b.state, f.runs, f.reserved)->Ok_0.pending == b.state.pending,
        utf8(f.name) == e.name,
        stores_entry(d, e),
    ensures
        find_item(
            fs,
            b.state.pending,
            b.fs_root.0,
            entry_key(added_dir(fs, b, f).0, utf8(f.name)),
        ) != Ok::<Option<Seq<u8>>, Fault>(Some(d)),
{
    entry_reads_back(d, e, Seq::empty());
    assert(d + Seq::<u8>::empty() =~= d);
    let es = dir_entries(d)->Ok_0;
    assert(es[0].name == utf8(f.name));
    first_idx_is(es, has_name(utf8(f.name)), 0);
    assert(any_named(es, utf8(f.name)));
    let s = runs_taken(b.state, f.runs, f.reserved)->Ok_0;
    assert(batch_name_free(
        fs,
        BatchV { state: s, ..b },
        added_dir(fs, b, f).0,
        f.name,
        f.parent,
    ) is Ok);
}

} // verus!
