//! Writing file data.

use vstd::prelude::*;

use crate::bytes::{append_bytes, append_zeros, copy_bytes, zeros};
use crate::device::ReadAt;
use crate::error::{text, tracks, Fault, LuksError, Outcome, Result};
use crate::fs::btrfs::chunk::BLOCK_GROUP_DATA;
use crate::fs::btrfs::files::{resolved, Located};
use crate::fs::btrfs::roots::optional_root;
use crate::fs::btrfs::tree::{
    Key, CSUM_TREE_OBJECTID, EXTENT_CSUM_KEY, EXTENT_CSUM_OBJECTID, EXTENT_DATA_KEY,
    FS_TREE_OBJECTID,
};
use crate::fs::btrfs::volume::{Btrfs, FsV};
use crate::fs::btrfs::write::converge::{
    converge_and_finalize, file_changes, finalized, looked_up, only_files, possible, ChangesV,
    Lookups,
};
use crate::fs::btrfs::write::cow::agrees;
use crate::fs::btrfs::write::edit::{InodePatch, SizeEdit};
use crate::fs::btrfs::write::extent_tree::cap64;
use crate::fs::btrfs::write::gate::{check_writeable, refusal};
use crate::fs::btrfs::write::load::space_on;
use crate::fs::btrfs::write::payload::{
    build_extent_csum_items, build_inode_item, build_regular_file_extent, ceil_div, csum_tiles,
    file_extent_bytes, inode_item_bytes, pairs_of,
};
use crate::fs::btrfs::write::space::{first_fit, BgV, FreeSpaceMap};
use crate::fs::btrfs::write::txn::create::{
    directory_at, file_exists, find_directory, name_free, new_file_base, read_new_file_base,
    FILE_MODE,
};
use crate::fs::btrfs::write::txn::{
    entry_changes, entry_ops, files_root, new_generation, next_generation, push_op, touch,
    touch_op, tracks_some, NewEntry, NewEntryV, Transaction, TxnV,
};
use crate::fs::btrfs::write::workspace::{
    fresh_state, ops_of, steps, OpV, StateV, TreeOp, Workspace,
};
use crate::fs::FileType;
use crate::text::join5;

verus! {

/// Bytes on the device for `n` bytes of data: whole sectors.
pub open spec fn disk_len(n: int, sector: u32) -> u64 {
    cap64(ceil_div(n, sector as int) * sector)
}

/// Bytes on the device for `n` bytes of data.
pub fn whole_sectors(n: u64, sector: u32) -> (r: u64)
    requires
        sector > 0,
    ensures
        r == disk_len(n as int, sector),
        r >= n,
        r - n < sector,
        n == 0 ==> r == 0,
        n > 0 ==> r > 0,
{
    let s: u64 = sector as u64;
    let q: u64 = n / s;
    let rest: u64 = n % s;
    proof {
        vstd::arithmetic::div_mod::lemma_fundamental_div_mod(n as int, s as int);
        vstd::arithmetic::mul::lemma_mul_is_commutative(s as int, q as int);
        vstd::arithmetic::mul::lemma_mul_is_distributive_add_other_way(s as int, q as int, 1);
        if n == 0 {
            assert(q == 0) by (nonlinear_arith)
                requires
                    q == 0int / (s as int),
                    s > 0,
            ;
        }
    }
    if rest == 0 {
        n
    } else {
        n.saturating_add(s - rest)
    }
}

/// `content`, filled up with zeros to whole sectors.
pub open spec fn padded(content: Seq<u8>, sector: u32) -> Seq<u8> {
    content + zeros((disk_len(content.len() as int, sector) - content.len()) as nat)
}

/// Where `n` bytes of data go, and the allocator once they are there.
pub open spec fn data_placed(space: Seq<BgV>, n: int, sector: u32) -> Option<(u64, Seq<BgV>)> {
    if disk_len(n, sector) == 0 {
        Some((0, space))
    } else {
        first_fit(space, BLOCK_GROUP_DATA, disk_len(n, sector), sector as u64)
    }
}

/// The file extent item for data that starts the file.
pub open spec fn extent_op(generation: u64, ino: u64, at: u64, len: u64) -> OpV {
    OpV::Insert {
        key: Key { objectid: ino, item_type: EXTENT_DATA_KEY, offset: 0 },
        data: file_extent_bytes(generation, len, at, len, len),
    }
}

/// `ops`, and the file extent item where there is data.
pub open spec fn with_extent(ops: Seq<OpV>, generation: u64, ino: u64, at: u64, len: u64) -> Seq<OpV> {
    if len > 0 {
        ops.push(extent_op(generation, ino, at, len))
    } else {
        ops
    }
}

/// Checksum items to insert.
pub open spec fn csum_ops(items: Seq<(u64, Seq<u8>)>) -> Seq<OpV> {
    items.map_values(
        |p: (u64, Seq<u8>)|
            OpV::Insert {
                key: Key {
                    objectid: EXTENT_CSUM_OBJECTID,
                    item_type: EXTENT_CSUM_KEY,
                    offset: p.0,
                },
                data: p.1,
            },
    )
}

/// Checksum items to insert.
pub fn csum_changes(items: Vec<(u64, Vec<u8>)>) -> (r: Vec<TreeOp>)
    ensures
        ops_of(r@) == csum_ops(pairs_of(items@)),
{
    let ghost all = pairs_of(items@);
    let mut v: Vec<TreeOp> = Vec::new();
    let n: usize = items.len();
    let mut i: usize = 0;
    assert(ops_of(v@) =~= csum_ops(all.take(0)));
    while i < n
        invariant
            i <= n,
            n == items@.len(),
            all == pairs_of(items@),
            ops_of(v@) == csum_ops(all.take(i as int)),
        decreases n - i,
    {
        let data = copy_bytes(&items[i].1);
        assert(all[i as int] == (items@[i as int].0, data@));
        push_op(
            &mut v,
            TreeOp::Insert { key: Key::new(EXTENT_CSUM_OBJECTID, EXTENT_CSUM_KEY, items[i].0), data },
        );
        i += 1;
        assert(ops_of(v@) =~= csum_ops(all.take(i as int)));
    }
    assert(all.take(n as int) =~= all);
    v
}

/// The checksums of `content`, which lies at `at`, once they are in the
/// checksum tree; with them the tree's new root, if there is such a tree.
pub open spec fn csums_added(
    fs: FsV,
    generation: u64,
    s: StateV,
    at: u64,
    content: Seq<u8>,
    seen: bool,
) -> Outcome<(StateV, Option<(u64, u8)>)> {
    let len = disk_len(content.len() as int, fs.sb.sector_size);
    if len == 0 {
        Ok((s, None))
    } else {
        match optional_root(fs, CSUM_TREE_OBJECTID, seen) {
            None => Ok((s, None)),
            Some(root) => match csum_tiles(
                fs.sb.csum_type,
                fs.sb.node_size,
                fs.sb.sector_size,
                at,
                len,
                content,
            ) {
                Err(e) => Err(e),
                Ok(items) => match steps(
                    fs,
                    generation,
                    CSUM_TREE_OBJECTID,
                    s,
                    (root.bytenr, root.level),
                    csum_ops(items),
                ) {
                    Err(e) => Err(e),
                    Ok((t, r)) => Ok((t, Some(r))),
                },
            },
        }
    }
}

/// Insert the checksums of `data`, which lies at `at`.
fn add_csums<D: ReadAt>(
    fs: &Btrfs<D>,
    generation: u64,
    w: &mut Workspace,
    at: u64,
    len: u64,
    data: &[u8],
) -> (r: Result<Option<(u64, u8)>>)
    requires
        fs@.sb.sector_size > 0,
        len == disk_len(data@.len() as int, fs@.sb.sector_size),
        at + len <= u64::MAX,
    ensures
        exists|seen: bool| #[trigger]
            looked_up(fs.steady(), seen) && agrees(
                fs.steady(),
                r,
                csums_added(fs@, generation, old(w)@, at, data@, seen),
                |x: Option<(u64, u8)>| (final(w)@, x),
            ),
{
    assert(looked_up(fs.steady(), true));
    assert(!fs.steady() ==> looked_up(fs.steady(), false));
    if len == 0 {
        return Ok(None);
    }
    match fs.find_root(CSUM_TREE_OBJECTID) {
        None => Ok(None),
        Some(root) => {
            let sb = fs.superblock();
            let items = build_extent_csum_items(
                sb.csum_type,
                sb.node_size,
                sb.sector_size,
                at,
                len,
                data,
            )?;
            let ops = csum_changes(items);
            let to = w.apply_all(
                fs,
                generation,
                CSUM_TREE_OBJECTID,
                (root.bytenr, root.level),
                &ops,
            )?;
            Ok(Some(to))
        },
    }
}

/// The transaction that file changes `ops` and data for inode `ino` at `at`
/// come to; the data is placed already.
pub open spec fn data_written(
    fs: FsV,
    generation: u64,
    space: Seq<BgV>,
    ops: Seq<OpV>,
    ino: u64,
    at: u64,
    content: Seq<u8>,
    seen: Lookups,
) -> Outcome<TxnV> {
    let len = disk_len(content.len() as int, fs.sb.sector_size);
    match steps(
        fs,
        generation,
        FS_TREE_OBJECTID,
        fresh_state(space),
        files_root(fs),
        with_extent(ops, generation, ino, at, len),
    ) {
        Err(e) => Err(e),
        Ok((s, root)) => match csums_added(fs, generation, s, at, content, seen.csum) {
            Err(e) => Err(e),
            Ok((t, csum_root)) => finalized(
                fs,
                data_changes(fs, generation, root, csum_root, ino, at, content),
                t,
                seen.fst,
            ),
        },
    }
}

/// What writing `content` at `at` for inode `ino` changes.
pub open spec fn data_changes(
    fs: FsV,
    generation: u64,
    root: (u64, u8),
    csum_root: Option<(u64, u8)>,
    ino: u64,
    at: u64,
    content: Seq<u8>,
) -> ChangesV {
    let len = disk_len(content.len() as int, fs.sb.sector_size);
    ChangesV {
        csum_root,
        data: if len > 0 {
            seq![(at, padded(content, fs.sb.sector_size))]
        } else {
            Seq::empty()
        },
        added: if len > 0 {
            seq![(at, len, FS_TREE_OBJECTID, ino, 0u64)]
        } else {
            Seq::empty()
        },
        ..only_files(fs, generation, root)
    }
}

/// Change the default subvolume, write `data` for inode `ino` at `at`, and
/// finish the transaction.
fn write_data<D: ReadAt>(
    fs: &Btrfs<D>,
    generation: u64,
    allocator: FreeSpaceMap,
    ops: Vec<TreeOp>,
    ino: u64,
    at: u64,
    data: &[u8],
) -> (r: Result<Transaction>)
    requires
        fs@.sb.sector_size > 0,
        at + disk_len(data@.len() as int, fs@.sb.sector_size) <= u64::MAX,
    ensures
        tracks_some(
            fs.steady(),
            r,
            |seen: Lookups|
                data_written(fs@, generation, allocator@, ops_of(ops@), ino, at, data@, seen),
        ),
{
    assert(possible(fs.steady(), Lookups { csum: true, fst: true, shape: true }));
    let sector: u32 = fs.superblock().sector_size;
    let n: usize = data.len();
    let len: u64 = whole_sectors(n as u64, sector);
    let mut ops = ops;
    if len > 0 {
        push_op(
            &mut ops,
            TreeOp::Insert {
                key: Key::new(ino, EXTENT_DATA_KEY, 0),
                data: build_regular_file_extent(generation, len, at, len, len),
            },
        );
    }
    let mut w = Workspace::new(allocator);
    let tree = fs.fs_tree();
    let root = w.apply_all(fs, generation, FS_TREE_OBJECTID, (tree.bytenr, tree.level), &ops)?;
    let ghost s = w@;
    let added = add_csums(fs, generation, &mut w, at, len, data);
    let ghost csum = choose|seen: bool| #[trigger]
        looked_up(fs.steady(), seen) && agrees(
            fs.steady(),
            added,
            csums_added(fs@, generation, s, at, data@, seen),
            |x: Option<(u64, u8)>| (w@, x),
        );
    assert(possible(fs.steady(), Lookups { csum, fst: true, shape: true }));
    let csum_root = added?;
    let mut c = file_changes(fs, generation, root);
    c.csum_root = csum_root;
    if len > 0 {
        let mut full: Vec<u8> = Vec::new();
        append_bytes(&mut full, data);
        append_zeros(&mut full, (len - n as u64) as usize);
        assert(full@ =~= padded(data@, sector));
        c.data.push((at, full));
        c.added.push((at, len, FS_TREE_OBJECTID, ino, 0));
        assert(pairs_of(c.data@) =~= seq![(at, padded(data@, sector))]);
        assert(c.added@ =~= seq![(at, len, FS_TREE_OBJECTID, ino, 0u64)]);
    }
    assert(c@ == data_changes(fs@, generation, root, csum_root, ino, at, data@));
    let ghost t = w@;
    let r = converge_and_finalize(fs, c, w);
    proof {
        let fst = choose|fst: bool| #[trigger]
            looked_up(fs.steady(), fst) && tracks(fs.steady(), r, finalized(fs@, c@, t, fst));
        assert(possible(fs.steady(), Lookups { csum, fst, shape: true }));
    }
    r
}

/// Place `n` bytes of data.
fn place_data(allocator: &mut FreeSpaceMap, n: u64, sector: u32) -> (r: Result<u64>)
    requires
        sector > 0,
    ensures
        match r {
            Ok(at) => data_placed(old(allocator)@, n as int, sector) == Some(
                (at, final(allocator)@),
            ) && at + disk_len(n as int, sector) <= u64::MAX,
            Err(e) => data_placed(old(allocator)@, n as int, sector) is None && e@
                == Fault::FilesystemFull,
        },
{
    let len: u64 = whole_sectors(n, sector);
    if len == 0 {
        return Ok(0);
    }
    allocator.allocate_data(len, sector)
}

/// The regular file or other non-directory at `path`, which must lie in the
/// default subvolume.
pub open spec fn data_target(fs: FsV, path: Seq<char>) -> Outcome<Located> {
    match resolved(fs, fs.fs_tree, path) {
        Err(e) => Err(e),
        Ok(x) => if x.inode.kind() == FileType::Directory {
            Err(Fault::IsADirectory(path))
        } else if x.tree.objectid != FS_TREE_OBJECTID {
            Err(Fault::UnsupportedFsFeature("subvolume file write not yet supported"@))
        } else {
            Ok(x)
        },
    }
}

/// The transaction that writes `content` into the file at `path`.
pub open spec fn file_written(
    fs: FsV,
    path: Seq<char>,
    content: Seq<u8>,
    sec: u64,
    nsec: u32,
    seen: Lookups,
) -> Outcome<TxnV> {
    let g = next_generation(fs);
    match refusal(fs) {
        Some(e) => Err(e),
        None => match data_target(fs, path) {
            Err(e) => Err(e),
            Ok(x) => match space_on(fs) {
                Err(e) => Err(e),
                Ok(space) => match data_placed(
                    space,
                    content.len() as int,
                    fs.sb.sector_size,
                ) {
                    None => Err(Fault::FilesystemFull),
                    Some((at, rest)) => data_written(
                        fs,
                        g,
                        rest,
                        seq![
                            touch(
                                x.inode.objectid,
                                InodePatch {
                                    generation: g,
                                    size: SizeEdit::Record {
                                        size: content.len() as u64,
                                        nbytes: disk_len(
                                            content.len() as int,
                                            fs.sb.sector_size,
                                        ),
                                    },
                                    sec,
                                    nsec,
                                    modified: true,
                                },
                                "inode not found"@,
                                "inode item truncated"@,
                            ),
                        ],
                        x.inode.objectid,
                        at,
                        content,
                        seen,
                    ),
                },
            },
        },
    }
}

/// The transaction that creates a file with `content`, and the file's inode
/// number.
pub open spec fn full_file_created(
    fs: FsV,
    parent_path: Seq<char>,
    name: Seq<char>,
    content: Seq<u8>,
    sec: u64,
    nsec: u32,
    seen: Lookups,
) -> Outcome<(TxnV, u64)> {
    let g = next_generation(fs);
    let n = content.len() as int;
    match refusal(fs) {
        Some(e) => Err(e),
        None => match directory_at(
            fs,
            parent_path,
            "subvolume file creation not yet supported"@,
        ) {
            Err(e) => Err(e),
            Ok(p) => match name_free(
                fs,
                p.inode.objectid,
                name,
                Fault::AlreadyExists(file_exists(name, parent_path)),
            ) {
                Err(e) => Err(e),
                Ok(_) => match new_file_base(fs, p.inode.objectid) {
                    Err(e) => Err(e),
                    Ok((space, ino, index)) => match data_placed(space, n, fs.sb.sector_size) {
                        None => Err(Fault::FilesystemFull),
                        Some((at, rest)) => match data_written(
                            fs,
                            g,
                            rest,
                            entry_ops(
                                NewEntryV {
                                    generation: g,
                                    parent: p.inode.objectid,
                                    ino,
                                    index,
                                    name,
                                    kind: 1,
                                    sec,
                                    nsec,
                                    shares: false,
                                    missing: "parent inode not found"@,
                                },
                                inode_item_bytes(
                                    g,
                                    n as u64,
                                    disk_len(n, fs.sb.sector_size),
                                    FILE_MODE,
                                    p.inode.uid,
                                    p.inode.gid,
                                    1,
                                    sec,
                                    nsec,
                                ),
                            ),
                            ino,
                            at,
                            content,
                            seen,
                        ) {
                            Err(e) => Err(e),
                            Ok(t) => Ok((t, ino)),
                        },
                    },
                },
            },
        },
    }
}

impl Transaction {
    /// Prepare a transaction that writes `data` into the file at `file_path`.
    pub fn write_file_data<D: ReadAt>(
        fs: &Btrfs<D>,
        file_path: &str,
        data: &[u8],
        now_sec: u64,
        now_nsec: u32,
    ) -> (r: Result<Self>)
        requires
            fs@.sb.wf(),
        ensures
            tracks_some(
                fs.steady(),
                r,
                |seen: Lookups| file_written(fs@, file_path@, data@, now_sec, now_nsec, seen),
            ),
    {
        assert(possible(fs.steady(), Lookups { csum: true, fst: true, shape: true }));
        check_writeable(fs)?;
        let x = fs.resolve_no_follow(fs.fs_tree(), file_path)?;
        if x.inode.file_type().is_dir() {
            return Err(LuksError::IsADirectory(text(file_path)));
        }
        if x.tree.objectid != FS_TREE_OBJECTID {
            return Err(
                LuksError::UnsupportedFsFeature(text("subvolume file write not yet supported")),
            );
        }
        let ino: u64 = x.inode.objectid;
        let generation: u64 = new_generation(fs);
        let sector: u32 = fs.superblock().sector_size;
        let n: u64 = data.len() as u64;
        let mut allocator = FreeSpaceMap::read(fs)?;
        let at: u64 = place_data(&mut allocator, n, sector)?;
        let patch = InodePatch {
            generation,
            size: SizeEdit::Record { size: n, nbytes: whole_sectors(n, sector) },
            sec: now_sec,
            nsec: now_nsec,
            modified: true,
        };
        let mut ops: Vec<TreeOp> = Vec::new();
        ops.push(touch_op(ino, patch, "inode not found", "inode item truncated"));
        assert(ops_of(ops@) =~= seq![
            touch(ino, patch, "inode not found"@, "inode item truncated"@),
        ]);
        write_data(fs, generation, allocator, ops, ino, at, data)
    }

    /// Prepare a transaction that creates a regular file with `data` in
    /// `parent_path`; also returns its inode number.
    pub fn create_file_with_data<D: ReadAt>(
        fs: &Btrfs<D>,
        parent_path: &str,
        filename: &str,
        data: &[u8],
        now_sec: u64,
        now_nsec: u32,
    ) -> (r: Result<(Self, u64)>)
        requires
            fs@.sb.wf(),
        ensures
            tracks_some(
                fs.steady(),
                r,
                |seen: Lookups|
                    full_file_created(
                        fs@,
                        parent_path@,
                        filename@,
                        data@,
                        now_sec,
                        now_nsec,
                        seen,
                    ),
            ),
    {
        assert(possible(fs.steady(), Lookups { csum: true, fst: true, shape: true }));
        check_writeable(fs)?;
        let parent = find_directory(
            fs,
            parent_path,
            "subvolume file creation not yet supported",
        )?;
        let dir: u64 = parent.inode.objectid;
        if let Some(_) = fs.lookup(fs.fs_tree().bytenr, dir, filename)? {
            return Err(
                LuksError::AlreadyExists(
                    join5("file '", filename, "' already exists in '", parent_path, "'"),
                ),
            );
        }
        let generation: u64 = new_generation(fs);
        let sector: u32 = fs.superblock().sector_size;
        let n: u64 = data.len() as u64;
        let (base, ino, index) = read_new_file_base(fs, dir)?;
        let mut allocator = base;
        let at: u64 = place_data(&mut allocator, n, sector)?;
        let inode = build_inode_item(
            generation,
            n,
            whole_sectors(n, sector),
            FILE_MODE,
            parent.inode.uid,
            parent.inode.gid,
            1,
            now_sec,
            now_nsec,
        );
        let e = NewEntry {
            generation,
            parent: dir,
            ino,
            index,
            name: filename,
            kind: 1,
            sec: now_sec,
            nsec: now_nsec,
            shares: false,
            missing: "parent inode not found",
        };
        let ops = entry_changes(&e, inode);
        let t = write_data(fs, generation, allocator, ops, ino, at, data)?;
        Ok((t, ino))
    }
}

} // verus!
