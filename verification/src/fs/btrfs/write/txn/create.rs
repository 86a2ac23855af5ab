//! Creating empty files and directories.

use vstd::prelude::*;

use crate::device::ReadAt;
use crate::error::{text, Fault, LuksError, Outcome, Result};
use crate::fs::btrfs::files::{entry_in, next_index, resolved, Located};
use crate::fs::btrfs::tree::FS_TREE_OBJECTID;
use crate::fs::btrfs::volume::{Btrfs, FsV};
use crate::fs::btrfs::write::converge::{possible, Lookups};
use crate::fs::btrfs::write::gate::{check_writeable, refusal};
use crate::fs::btrfs::write::load::space_on;
use crate::fs::btrfs::write::payload::{build_empty_inode_item, inode_item_bytes};
use crate::fs::btrfs::write::space::{BgV, FreeSpaceMap};
use crate::fs::btrfs::write::txn::{
    change_files, entry_changes, entry_ops, files_changed, new_generation, new_inode_number,
    next_generation, next_inode, tracks_some, NewEntry, NewEntryV, Transaction, TxnV,
};
use crate::fs::FileType;
use crate::text::{join, join3, join5, number, number_text, utf8};

verus! {

/// The mode of a new regular file.
pub const FILE_MODE: u32 = 0o100644;
/// The mode of a new directory.
pub const DIRECTORY_MODE: u32 = 0o040755;

/// The directory at `path`, which must lie in the default subvolume;
/// `elsewhere` is the message where it does not.
pub open spec fn directory_at(fs: FsV, path: Seq<char>, elsewhere: Seq<char>) -> Outcome<Located> {
    match resolved(fs, fs.fs_tree, path) {
        Err(e) => Err(e),
        Ok(x) => if x.inode.kind() != FileType::Directory {
            Err(Fault::NotADirectory(path))
        } else if x.tree.objectid != FS_TREE_OBJECTID {
            Err(Fault::UnsupportedFsFeature(elsewhere))
        } else {
            Ok(x)
        },
    }
}

/// Find the directory at `path` in the default subvolume.
pub fn find_directory<D: ReadAt>(fs: &Btrfs<D>, path: &str, elsewhere: &str) -> (r: Result<Located>)
    ensures
        match r {
            Ok(x) => directory_at(fs@, path@, elsewhere@) == Ok::<Located, Fault>(x),
            Err(e) => directory_at(fs@, path@, elsewhere@) == Err::<Located, Fault>(e@) || (
            !fs.steady() && e@ is Io),
        },
{
    let x = fs.resolve_no_follow(fs.fs_tree(), path)?;
    if !x.inode.file_type().is_dir() {
        return Err(LuksError::NotADirectory(text(path)));
    }
    if x.tree.objectid != FS_TREE_OBJECTID {
        return Err(LuksError::UnsupportedFsFeature(text(elsewhere)));
    }
    Ok(x)
}

/// The message for a file name that is taken.
pub open spec fn file_exists(name: Seq<char>, dir: Seq<char>) -> Seq<char> {
    "file '"@ + name + "' already exists in '"@ + dir + "'"@
}

/// The message for an entry name that is taken.
pub open spec fn entry_exists(name: Seq<char>, dir: u64) -> Seq<char> {
    "entry '"@ + name + "' already exists in parent directory "@ + number_text(dir as int, 10)
}

/// Whether `name` is free in directory `dir`; `taken` is the fault where it is
/// not.
pub open spec fn name_free(fs: FsV, dir: u64, name: Seq<char>, taken: Fault) -> Outcome<()> {
    match entry_in(fs, fs.fs_tree.bytenr, dir, utf8(name)) {
        Err(e) => Err(e),
        Ok(Some(_)) => Err(taken),
        Ok(None) => Ok(()),
    }
}

/// What a new file in directory `dir` builds on: the allocator, the file's
/// inode number, and its index in the directory.
pub open spec fn new_file_base(fs: FsV, dir: u64) -> Outcome<(Seq<BgV>, u64, u64)> {
    match space_on(fs) {
        Err(e) => Err(e),
        Ok(space) => match next_inode(fs) {
            Err(e) => Err(e),
            Ok(ino) => match next_index(fs, fs.fs_tree.bytenr, dir) {
                Err(e) => Err(e),
                Ok(index) => Ok((space, ino, index)),
            },
        },
    }
}

/// Gather what a new file in directory `dir` builds on.
pub fn read_new_file_base<D: ReadAt>(fs: &Btrfs<D>, dir: u64) -> (r: Result<(FreeSpaceMap, u64, u64)>)
    ensures
        match r {
            Ok(x) => new_file_base(fs@, dir) == Ok::<(Seq<BgV>, u64, u64), Fault>(
                (x.0@, x.1, x.2),
            ),
            Err(e) => new_file_base(fs@, dir) == Err::<(Seq<BgV>, u64, u64), Fault>(e@) || (
            !fs.steady() && e@ is Io),
        },
{
    let allocator = FreeSpaceMap::read(fs)?;
    let ino: u64 = new_inode_number(fs)?;
    let index: u64 = fs.next_dir_index(fs.fs_tree().bytenr, dir)?;
    Ok((allocator, ino, index))
}

/// The transaction that creates an empty file.
pub open spec fn file_created(
    fs: FsV,
    parent_path: Seq<char>,
    name: Seq<char>,
    sec: u64,
    nsec: u32,
    seen: Lookups,
) -> Outcome<TxnV> {
    let g = next_generation(fs);
    match refusal(fs) {
        Some(e) => Err(e),
        None => match directory_at(
            fs,
            parent_path,
            "subvolume file creation not yet supported"@,
        ) {
            Err(e) => Err(e),
            Ok(p) => match name_free(
                fs,
                p.inode.objectid,
                name,
                Fault::AlreadyExists(file_exists(name, parent_path)),
            ) {
                Err(e) => Err(e),
                Ok(_) => match new_file_base(fs, p.inode.objectid) {
                    Err(e) => Err(e),
                    Ok((space, ino, index)) => files_changed(
                        fs,
                        g,
                        space,
                        entry_ops(
                            NewEntryV {
                                generation: g,
                                parent: p.inode.objectid,
                                ino,
                                index,
                                name,
                                kind: 1,
                                sec,
                                nsec,
                                shares: false,
                                missing: "parent inode not found"@,
                            },
                            inode_item_bytes(
                                g,
                                0,
                                0,
                                FILE_MODE,
                                p.inode.uid,
                                p.inode.gid,
                                1,
                                sec,
                                nsec,
                            ),
                        ),
                        seen,
                    ),
                },
            },
        },
    }
}

/// The transaction that creates a directory in directory `parent`, and the
/// inode number of the new one.
pub open spec fn directory_created_in(
    fs: FsV,
    parent: u64,
    uid: u32,
    gid: u32,
    name: Seq<char>,
    sec: u64,
    nsec: u32,
    seen: Lookups,
) -> Outcome<(TxnV, u64)> {
    let g = next_generation(fs);
    match refusal(fs) {
        Some(e) => Err(e),
        None => match name_free(
            fs,
            parent,
            name,
            Fault::AlreadyExists(entry_exists(name, parent)),
        ) {
            Err(e) => Err(e),
            Ok(_) => match new_file_base(fs, parent) {
                Err(e) => Err(e),
                Ok((space, ino, index)) => match files_changed(
                    fs,
                    g,
                    space,
                    entry_ops(
                        NewEntryV {
                            generation: g,
                            parent,
                            ino,
                            index,
                            name,
                            kind: 2,
                            sec,
                            nsec,
                            shares: true,
                            missing: "parent inode not found"@,
                        },
                        inode_item_bytes(g, 0, 0, DIRECTORY_MODE, uid, gid, 1, sec, nsec),
                    ),
                    seen,
                ) {
                    Err(e) => Err(e),
                    Ok(t) => Ok((t, ino)),
                },
            },
        },
    }
}

/// The transaction that creates a directory, and its inode number.
pub open spec fn directory_created(
    fs: FsV,
    parent_path: Seq<char>,
    name: Seq<char>,
    sec: u64,
    nsec: u32,
    seen: Lookups,
) -> Outcome<(TxnV, u64)> {
    match refusal(fs) {
        Some(e) => Err(e),
        None => match directory_at(
            fs,
            parent_path,
            "subvolume directory creation not yet supported"@,
        ) {
            Err(e) => Err(e),
            Ok(p) => directory_created_in(
                fs,
                p.inode.objectid,
                p.inode.uid,
                p.inode.gid,
                name,
                sec,
                nsec,
                seen,
            ),
        },
    }
}

impl Transaction {
    /// Prepare a transaction that creates an empty regular file in
    /// `parent_path`.
    pub fn create_empty_file<D: ReadAt>(
        fs: &Btrfs<D>,
        parent_path: &str,
        filename: &str,
        now_sec: u64,
        now_nsec: u32,
    ) -> (r: Result<Self>)
        ensures
            tracks_some(
                fs.steady(),
                r,
                |seen: Lookups|
                    file_created(fs@, parent_path@, filename@, now_sec, now_nsec, seen),
            ),
    {
        assert(possible(fs.steady(), Lookups { csum: true, fst: true, shape: true }));
        check_writeable(fs)?;
        let parent = find_directory(
            fs,
            parent_path,
            "subvolume file creation not yet supported",
        )?;
        let dir: u64 = parent.inode.objectid;
        if let Some(_) = fs.lookup(fs.fs_tree().bytenr, dir, filename)? {
            return Err(
                LuksError::AlreadyExists(
                    join5("file '", filename, "' already exists in '", parent_path, "'"),
                ),
            );
        }
        let generation: u64 = new_generation(fs);
        let (allocator, ino, index) = read_new_file_base(fs, dir)?;
        let inode = build_empty_inode_item(
            generation,
            FILE_MODE,
            parent.inode.uid,
            parent.inode.gid,
            1,
            now_sec,
            now_nsec,
        );
        let e = NewEntry {
            generation,
            parent: dir,
            ino,
            index,
            name: filename,
            kind: 1,
            sec: now_sec,
            nsec: now_nsec,
            shares: false,
            missing: "parent inode not found",
        };
        let ops = entry_changes(&e, inode);
        change_files(fs, generation, allocator, &ops)
    }

    /// Prepare a transaction that creates a directory in `parent_path`; also
    /// returns its inode number.
    pub fn create_directory<D: ReadAt>(
        fs: &Btrfs<D>,
        parent_path: &str,
        name: &str,
        now_sec: u64,
        now_nsec: u32,
    ) -> (r: Result<(Self, u64)>)
        ensures
            tracks_some(
                fs.steady(),
                r,
                |seen: Lookups|
                    directory_created(fs@, parent_path@, name@, now_sec, now_nsec, seen),
            ),
    {
        assert(possible(fs.steady(), Lookups { csum: true, fst: true, shape: true }));
        check_writeable(fs)?;
        let parent = find_directory(
            fs,
            parent_path,
            "subvolume directory creation not yet supported",
        )?;
        Transaction::create_directory_in_dir(
            fs,
            parent.inode.objectid,
            parent.inode.uid,
            parent.inode.gid,
            name,
            now_sec,
            now_nsec,
        )
    }

    /// Prepare a transaction that creates a directory in the directory with
    /// inode number `parent_ino`; also returns its inode number.
    pub fn create_directory_in_dir<D: ReadAt>(
        fs: &Btrfs<D>,
        parent_ino: u64,
        parent_uid: u32,
        parent_gid: u32,
        name: &str,
        now_sec: u64,
        now_nsec: u32,
    ) -> (r: Result<(Self, u64)>)
        ensures
            tracks_some(
                fs.steady(),
                r,
                |seen: Lookups|
                    directory_created_in(
                        fs@,
                        parent_ino,
                        parent_uid,
                        parent_gid,
                        name@,
                        now_sec,
                        now_nsec,
                        seen,
                    ),
            ),
    {
        assert(possible(fs.steady(), Lookups { csum: true, fst: true, shape: true }));
        check_writeable(fs)?;
        if let Some(_) = fs.lookup(fs.fs_tree().bytenr, parent_ino, name)? {
            let digits = number(parent_ino, 10);
            let head = join3("entry '", name, "' already exists in parent directory ");
            return Err(LuksError::AlreadyExists(join(head.as_str(), digits.as_str())));
        }
        let generation: u64 = new_generation(fs);
        let (allocator, ino, index) = read_new_file_base(fs, parent_ino)?;
        let inode = build_empty_inode_item(
            generation,
            DIRECTORY_MODE,
            parent_uid,
            parent_gid,
            1,
            now_sec,
            now_nsec,
        );
        let e = NewEntry {
            generation,
            parent: parent_ino,
            ino,
            index,
            name,
            kind: 2,
            sec: now_sec,
            nsec: now_nsec,
            shares: true,
            missing: "parent inode not found",
        };
        let ops = entry_changes(&e, inode);
        let t = change_files(fs, generation, allocator, &ops)?;
        Ok((t, ino))
    }
}

} // verus!
