//! When writing is refused, and when a batch is due.

use vstd::prelude::*;

use crate::fs::btrfs::blocks::{addresses_of, bytes_at};
use crate::fs::btrfs::files::{entry_in, resolved};
use crate::fs::btrfs::volume::FsV;
use crate::fs::btrfs::write::batch::{due, BatchV};
use crate::fs::btrfs::write::converge::Lookups;
use crate::fs::btrfs::write::gate::refusal;
use crate::fs::btrfs::write::ops::touched_at;
use crate::fs::btrfs::write::txn::create::{directory_created, file_created};
use crate::fs::btrfs::write::txn::data::{file_written, full_file_created};
use crate::fs::btrfs::write::txn::delete::file_deleted;
use crate::fs::btrfs::write::txn::mtime::touched;
use crate::fs::btrfs::write::txn::rename::renamed;
use crate::fs::naming::is_step;
use crate::text::utf8;

verus! {

/// A volume is written only where no log is left to replay, tree blocks are
/// recorded as skinny items (bit 8 of the incompatible features), no compatible
/// feature but bits 0 and 1 is set, there is one device, and the subvolume is not
/// marked read-only (bit 0 of its flags); and where all that holds, it is.
pub proof fn written_only_where_safe(fs: FsV)
    ensures
        refusal(fs) is None <==> {
            &&& fs.sb.log_root == 0
            &&& (fs.sb.incompat_flags / 256) % 2 == 1
            &&& fs.sb.compat_ro_flags < 4
            &&& fs.sb.num_devices == 1
            &&& fs.fs_tree.flags % 2 == 0
        },
{
    let a = fs.sb.incompat_flags;
    let b = fs.sb.compat_ro_flags;
    let c = fs.fs_tree.flags;
    assert((a & 0x100 != 0) == ((a / 256) % 2 == 1)) by (bit_vector);
    assert((b & !3u64 == 0) == (b < 4)) by (bit_vector);
    assert((c & 1 == 0) == (c % 2 == 0)) by (bit_vector);
}

/// Where writing is not safe, no operation comes to a transaction.
pub proof fn unsafe_is_not_written(
    fs: FsV,
    path: Seq<char>,
    name: Seq<char>,
    other: Seq<char>,
    new_name: Seq<char>,
    content: Seq<u8>,
    ino: u64,
    sec: u64,
    nsec: u32,
    seen: Lookups,
)
    requires
        fs.sb.log_root != 0 || (fs.sb.incompat_flags / 256) % 2 == 0 || fs.sb.compat_ro_flags >= 4
            || fs.sb.num_devices != 1 || fs.fs_tree.flags % 2 == 1,
    ensures
        file_created(fs, path, name, sec, nsec, seen) is Err,
        directory_created(fs, path, name, sec, nsec, seen) is Err,
        file_written(fs, path, content, sec, nsec, seen) is Err,
        full_file_created(fs, path, name, content, sec, nsec, seen) is Err,
        file_deleted(fs, path, sec, nsec, seen) is Err,
        renamed(fs, path, name, other, new_name, sec, nsec, seen) is Err,
        touched(fs, ino, sec, nsec, seen) is Err,
{
    written_only_where_safe(fs);
}

/// A batch is due with 16 files, 8 MiB of tree blocks, 64 MiB of data, or after two
/// seconds, and not before.
pub proof fn due_in_time(b: BatchV, now: u64)
    ensures
        due(b, now) <==> b.files >= 16 || bytes_at(
            b.state.pending,
            addresses_of(b.state.pending),
        ) >= 8 * 1024 * 1024 || b.bytes >= 64 * 1024 * 1024 || now - b.started >= 2000,
{
}

/// Only the default subvolume (tree 5) is written.
pub proof fn other_subvolumes_are_left_alone(
    fs: FsV,
    path: Seq<char>,
    name: Seq<char>,
    other: Seq<char>,
    new_name: Seq<char>,
    content: Seq<u8>,
    sec: u64,
    nsec: u32,
    seen: Lookups,
)
    requires
        resolved(fs, fs.fs_tree, path) matches Ok(x) && x.tree.objectid != 5,
    ensures
        file_created(fs, path, name, sec, nsec, seen) is Err,
        directory_created(fs, path, name, sec, nsec, seen) is Err,
        file_written(fs, path, content, sec, nsec, seen) is Err,
        full_file_created(fs, path, name, content, sec, nsec, seen) is Err,
        file_deleted(fs, path, sec, nsec, seen) is Err,
        renamed(fs, path, name, other, new_name, sec, nsec, seen) is Err,
        renamed(fs, other, name, path, new_name, sec, nsec, seen) is Err,
        touched_at(fs, path, sec, nsec, seen) is Err,
{
}

/// A rename neither takes nor gives a name that a path could not lead to: an empty
/// one, `.`, `..`, or one with a slash in it.
pub proof fn strange_names_are_not_given(
    fs: FsV,
    old_dir: Seq<char>,
    old_name: Seq<char>,
    new_dir: Seq<char>,
    new_name: Seq<char>,
    sec: u64,
    nsec: u32,
    seen: Lookups,
)
    requires
        renamed(fs, old_dir, old_name, new_dir, new_name, sec, nsec, seen) is Ok,
    ensures
        is_step(old_name) && old_name != seq!['.', '.'],
        is_step(new_name) && new_name != seq!['.', '.'],
{
    dots();
    step_of(old_name);
    step_of(new_name);
}

proof fn dots()
    ensures
        "."@ == seq!['.'],
        ".."@ == seq!['.', '.'],
{
    reveal_strlit(".");
    reveal_strlit("..");
    assert("."@ =~= seq!['.']);
    assert(".."@ =~= seq!['.', '.']);
}

proof fn step_of(s: Seq<char>)
    requires
        s.len() > 0,
        s != "."@,
        !s.contains('/'),
    ensures
        is_step(s),
{
    dots();
    if s.len() == 1 && s[0] == '.' {
        assert(s =~= seq!['.']);
    }
    assert forall|i: int| 0 <= i < s.len() implies #[trigger] s[i] != '/' by {
        if s[i] == '/' {
            assert(s.contains('/'));
        }
    }
}

/// A rename of a file onto itself, by its own name or by another, moves nothing: it
/// does what setting the file's times does.
pub proof fn onto_itself_is_touched(
    fs: FsV,
    old_dir: Seq<char>,
    old_name: Seq<char>,
    new_dir: Seq<char>,
    new_name: Seq<char>,
    sec: u64,
    nsec: u32,
    seen: Lookups,
)
    requires
        renamed(fs, old_dir, old_name, new_dir, new_name, sec, nsec, seen) is Ok,
        ({
            let root = fs.fs_tree.bytenr;
            let from = resolved(fs, fs.fs_tree, old_dir)->Ok_0.inode.objectid;
            let to = resolved(fs, fs.fs_tree, new_dir)->Ok_0.inode.objectid;
            let a = entry_in(fs, root, from, utf8(old_name))->Ok_0->0;
            let b = entry_in(fs, root, to, utf8(new_name))->Ok_0->0;
            &&& entry_in(fs, root, from, utf8(old_name)) matches Ok(Some(_))
            &&& entry_in(fs, root, to, utf8(new_name)) matches Ok(Some(_))
            &&& a.location.objectid == b.location.objectid
        }),
    ensures
        ({
            let from = resolved(fs, fs.fs_tree, old_dir)->Ok_0.inode.objectid;
            let a = entry_in(fs, fs.fs_tree.bytenr, from, utf8(old_name))->Ok_0->0;
            renamed(fs, old_dir, old_name, new_dir, new_name, sec, nsec, seen) == touched(
                fs,
                a.location.objectid,
                sec,
                nsec,
                seen,
            )
        }),
{
}

} // verus!
