//! The times that are set are found, and nothing else changes.

use vstd::prelude::*;

use crate::bytes::{enc32, enc64, group_enc_len, le32, le32_of_enc, le64, le64_of_enc};
use crate::fs::btrfs::files::disk_item;
use crate::fs::btrfs::search::MAX_DEPTH;
use crate::fs::btrfs::tree::Key;
use crate::fs::btrfs::volume::FsV;
use crate::fs::btrfs::write::change::{
    all_low, commits_clear, files_change_as_told, files_of, fit_to_change,
};
use crate::fs::btrfs::write::commit::committed;
use crate::fs::btrfs::write::converge::Lookups;
use crate::fs::btrfs::write::edit::{patched, InodePatch};
use crate::fs::btrfs::write::grove::state_of;
use crate::fs::btrfs::write::load::space_on;
use crate::fs::btrfs::write::readback::committed_is_found;
use crate::fs::btrfs::write::tree_map::{
    all_allowed, allowed, contents, map_after, map_after_all, search_reads_contents,
};
use crate::fs::btrfs::write::txn::mtime::{times_set, touched};
use crate::fs::btrfs::write::txn::{files_root, inode_key, next_generation, touch};
use crate::fs::btrfs::write::workspace::{fresh_state, OpV};

verus! {

/// An inode item with this modification time, as seconds and nanoseconds.
pub open spec fn modified_at(d: Seq<u8>, sec: u64, nsec: u32) -> bool {
    le64(d, 136) == sec && le32(d, 144) == nsec
}

/// An inode item with this change time, as seconds and nanoseconds.
pub open spec fn changed_at(d: Seq<u8>, sec: u64, nsec: u32) -> bool {
    le64(d, 124) == sec && le32(d, 132) == nsec
}

/// A patch that moves the modification time leaves the time it was given, and
/// the same as the change time.
pub proof fn patched_time_reads_back(d: Seq<u8>, p: InodePatch)
    requires
        d.len() >= 160,
        p.modified,
    ensures
        patched(d, p).len() == d.len(),
        modified_at(patched(d, p), p.sec, p.nsec),
        changed_at(patched(d, p), p.sec, p.nsec),
{
    broadcast use group_enc_len;

    let r = patched(d, p);
    assert(r.len() == d.len());
    assert(r.subrange(136, 144) =~= enc64(p.sec));
    assert(r.subrange(144, 148) =~= enc32(p.nsec));
    le64_of_enc(r, 136, p.sec);
    le32_of_enc(r, 144, p.nsec);
    assert(r.subrange(124, 132) =~= enc64(p.sec));
    assert(r.subrange(132, 136) =~= enc32(p.nsec));
    le64_of_enc(r, 124, p.sec);
    le32_of_enc(r, 132, p.nsec);
}

/// The operation that sets the times of an inode.
pub open spec fn stamp_ops(fs: FsV, ino: u64, sec: u64, nsec: u32) -> Seq<OpV> {
    seq![
        touch(
            ino,
            times_set(next_generation(fs), sec, nsec),
            "inode not found"@,
            "inode item truncated"@,
        ),
    ]
}

/// Once the transaction that sets the times of an inode is committed, the inode
/// on the device has the time it was given, and all else is found as before.
///
/// No device write of the commit damages another.
pub proof fn stamped_is_found_on_device(
    fs: FsV,
    len: Option<u64>,
    ino: u64,
    sec: u64,
    nsec: u32,
    seen: Lookups,
    k: Key,
)
    requires
        touched(fs, ino, sec, nsec, seen) is Ok,
        fit_to_change(fs, space_on(fs)->Ok_0),
        all_low(
            fs,
            next_generation(fs),
            space_on(fs)->Ok_0,
            stamp_ops(fs, ino, sec, nsec),
            seen,
        ),
        fs.fs_tree.level < MAX_DEPTH,
        ({
            let t = touched(fs, ino, sec, nsec, seen)->Ok_0;
            commits_clear(fs, len, t)
        }),
    ensures
        ({
            let t = touched(fs, ino, sec, nsec, seen)->Ok_0;
            let gs = committed(fs, len, t)->Ok_0.0;
            &&& disk_item(gs, gs.fs_tree.bytenr, inode_key(ino)) matches Ok(Some(d))
                && modified_at(d, sec, nsec) && changed_at(d, sec, nsec)
            &&& k != inode_key(ino) ==> disk_item(gs, gs.fs_tree.bytenr, k) == disk_item(
                fs,
                fs.fs_tree.bytenr,
                k,
            )
        }),
{
    let space = space_on(fs)->Ok_0;
    let g = next_generation(fs);
    let ops = stamp_ops(fs, ino, sec, nsec);
    let t = touched(fs, ino, sec, nsec, seen)->Ok_0;
    let s0 = fresh_state(space);
    let m = contents(fs, s0, files_root(fs));
    files_change_as_told(fs, g, space, ops, seen);
    assert(ops.drop_last() =~= Seq::<OpV>::empty());
    assert(map_after_all(m, ops.drop_last()) == m);
    assert(all_allowed(m, ops));
    assert(allowed(m, ops[0]));
    assert(map_after_all(m, ops) == map_after(m, ops[0]));
    patched_time_reads_back(m[inode_key(ino)], times_set(g, sec, nsec));
    search_reads_contents(fs, s0, files_root(fs), k);
    search_reads_contents(fs, state_of(t), files_of(t), inode_key(ino));
    search_reads_contents(fs, state_of(t), files_of(t), k);
    committed_is_found(fs, len, t, files_of(t), inode_key(ino));
    committed_is_found(fs, len, t, files_of(t), k);
}

} // verus!
