//! Bringing a transaction to its fixed point.
//!
//! Every changed tree block has to be listed in the extent tree, listing it
//! changes further blocks, and the counters of the block groups, the free-space
//! tree and the root tree have to agree with the result. The loops here run
//! until nothing is left to record.

use vstd::prelude::*;

use crate::device::ReadAt;
use crate::error::{text, tracks, Fault, LuksError, Outcome, Result};
use crate::fs::btrfs::roots::{optional_root, root_of};
use crate::fs::btrfs::superblock::BTRFS_FEATURE_COMPAT_RO_FREE_SPACE_TREE;
use crate::fs::btrfs::tree::{
    Key, BLOCK_GROUP_ITEM_KEY, CSUM_TREE_OBJECTID, DEV_TREE_OBJECTID, EXTENT_ITEM_KEY,
    EXTENT_TREE_OBJECTID, FREE_SPACE_TREE_OBJECTID, FS_TREE_OBJECTID, METADATA_ITEM_KEY,
    ROOT_ITEM_KEY, ROOT_TREE_OBJECTID,
};
use crate::fs::btrfs::volume::{node_at, read_node, Btrfs, FsV, TreeRoot};
use crate::fs::btrfs::write::cow::agrees;
use crate::fs::btrfs::write::edit::{EditV, LeafEdit};
use crate::fs::btrfs::write::extent_tree::{
    cap64, data_extent_bytes, tree_block_bytes, ExtentItem, MetadataItem,
};
use crate::fs::btrfs::write::gate::{check_free_space_tree_shape, shape_refusal};
use crate::fs::btrfs::write::node::{emit_leaf, leaf_used, Leaf, LeafV};
use crate::fs::btrfs::write::payload::pairs_of;
use crate::fs::btrfs::write::space::{alloc_meta, free_block, space_items, used_sum, BgV, FreeSpaceMap};
use crate::fs::btrfs::write::txn::{push_op, Transaction, TxnV};
use crate::fs::btrfs::write::workspace::{ops_of, steps, OpV, StateV, TreeOp, Workspace};

verus! {

/// How many rounds a loop here may take.
pub const MAX_CONVERGENCE_ROUNDS: u32 = 30;

/// Which lookups of trees that need not exist went through. One that fails
/// counts as the tree's absence, so on an unsteady device a tree may be missed.
pub struct Lookups {
    pub csum: bool,
    pub fst: bool,
    pub shape: bool,
}

/// Whether the lookups can have gone this way: on a steady device all go
/// through.
pub open spec fn possible(steady: bool, seen: Lookups) -> bool {
    steady ==> seen.csum && seen.fst && seen.shape
}

/// Whether one lookup can have gone this way.
pub open spec fn looked_up(steady: bool, seen: bool) -> bool {
    steady ==> seen
}

/// What a transaction did before it is brought to its fixed point.
#[derive(Debug)]
pub struct Changes {
    pub generation: u64,
    /// The root of the default subvolume.
    pub fs_tree: TreeRoot,
    /// The roots of the other trees that changed.
    pub csum_root: Option<(u64, u8)>,
    pub dev_root: Option<(u64, u8)>,
    pub chunk_root: Option<(u64, u8)>,
    pub extent_root: Option<(u64, u8)>,
    /// File data to write.
    pub data: Vec<(u64, Vec<u8>)>,
    /// New data extents: address, length, tree, inode and file offset.
    pub added: Vec<(u64, u64, u64, u64, u64)>,
    /// Data extents that are no longer referenced.
    pub dropped: Vec<(u64, u64)>,
}

/// The mathematical view of [`Changes`].
pub struct ChangesV {
    pub generation: u64,
    pub fs_tree: TreeRoot,
    pub csum_root: Option<(u64, u8)>,
    pub dev_root: Option<(u64, u8)>,
    pub chunk_root: Option<(u64, u8)>,
    pub extent_root: Option<(u64, u8)>,
    pub data: Seq<(u64, Seq<u8>)>,
    pub added: Seq<(u64, u64, u64, u64, u64)>,
    pub dropped: Seq<(u64, u64)>,
}

impl View for Changes {
    type V = ChangesV;

    open spec fn view(&self) -> ChangesV {
        ChangesV {
            generation: self.generation,
            fs_tree: self.fs_tree,
            csum_root: self.csum_root,
            dev_root: self.dev_root,
            chunk_root: self.chunk_root,
            extent_root: self.extent_root,
            data: pairs_of(self.data@),
            added: self.added@,
            dropped: self.dropped@,
        }
    }
}

/// Changes of the default subvolume alone, whose root is now at `root`.
pub open spec fn only_files(fs: FsV, generation: u64, root: (u64, u8)) -> ChangesV {
    ChangesV {
        generation,
        fs_tree: TreeRoot { bytenr: root.0, level: root.1, generation, ..fs.fs_tree },
        csum_root: None,
        dev_root: None,
        chunk_root: None,
        extent_root: None,
        data: Seq::empty(),
        added: Seq::empty(),
        dropped: Seq::empty(),
    }
}

/// Changes of the default subvolume alone, whose root is now at `root`.
pub fn file_changes<D: ReadAt>(fs: &Btrfs<D>, generation: u64, root: (u64, u8)) -> (r: Changes)
    ensures
        r@ == only_files(fs@, generation, root),
{
    let mut fs_tree = fs.fs_tree();
    fs_tree.bytenr = root.0;
    fs_tree.level = root.1;
    fs_tree.generation = generation;
    let data: Vec<(u64, Vec<u8>)> = Vec::new();
    assert(pairs_of(data@) =~= Seq::<(u64, Seq<u8>)>::empty());
    Changes {
        generation,
        fs_tree,
        csum_root: None,
        dev_root: None,
        chunk_root: None,
        extent_root: None,
        data,
        added: Vec::new(),
        dropped: Vec::new(),
    }
}

/// Point the root item of the tree `objectid` at `to`.
pub open spec fn repoint(
    objectid: u64,
    generation: u64,
    to: (u64, u8),
    missing: Seq<char>,
    truncated: Seq<char>,
) -> OpV {
    OpV::Edit {
        key: Key { objectid, item_type: ROOT_ITEM_KEY, offset: 0 },
        edit: EditV::Root { generation, bytenr: to.0, level: to.1, missing, truncated },
    }
}

fn repoint_op(
    objectid: u64,
    generation: u64,
    to: (u64, u8),
    missing: &'static str,
    truncated: &'static str,
) -> (r: TreeOp)
    ensures
        r@ == repoint(objectid, generation, to, missing@, truncated@),
{
    TreeOp::Edit {
        key: Key::new(objectid, ROOT_ITEM_KEY, 0),
        edit: LeafEdit::Root { generation, bytenr: to.0, level: to.1, missing, truncated },
    }
}

/// The changes of the root tree that `c` calls for at once.
pub open spec fn root_ops(fs: FsV, c: ChangesV) -> Seq<OpV> {
    let a = if c.fs_tree.bytenr != fs.fs_tree.bytenr {
        seq![
            repoint(
                FS_TREE_OBJECTID,
                c.generation,
                (c.fs_tree.bytenr, c.fs_tree.level),
                "fs root item not found"@,
                "root item truncated"@,
            ),
        ]
    } else {
        Seq::empty()
    };
    let b = match c.csum_root {
        Some(to) => a.push(
            repoint(
                CSUM_TREE_OBJECTID,
                c.generation,
                to,
                "csum root item not found"@,
                "root item truncated"@,
            ),
        ),
        None => a,
    };
    match c.dev_root {
        Some(to) => b.push(
            repoint(
                DEV_TREE_OBJECTID,
                c.generation,
                to,
                "dev root item not found in root tree"@,
                "dev root item truncated"@,
            ),
        ),
        None => b,
    }
}

fn root_changes<D: ReadAt>(fs: &Btrfs<D>, c: &Changes) -> (r: Vec<TreeOp>)
    ensures
        ops_of(r@) == root_ops(fs@, c@),
{
    let mut v: Vec<TreeOp> = Vec::new();
    assert(ops_of(v@) =~= Seq::<OpV>::empty());
    if c.fs_tree.bytenr != fs.fs_tree().bytenr {
        push_op(
            &mut v,
            repoint_op(
                FS_TREE_OBJECTID,
                c.generation,
                (c.fs_tree.bytenr, c.fs_tree.level),
                "fs root item not found",
                "root item truncated",
            ),
        );
    }
    if let Some(to) = c.csum_root {
        push_op(
            &mut v,
            repoint_op(
                CSUM_TREE_OBJECTID,
                c.generation,
                to,
                "csum root item not found",
                "root item truncated",
            ),
        );
    }
    if let Some(to) = c.dev_root {
        push_op(
            &mut v,
            repoint_op(
                DEV_TREE_OBJECTID,
                c.generation,
                to,
                "dev root item not found in root tree",
                "dev root item truncated",
            ),
        );
    }
    assert(ops_of(v@) =~= root_ops(fs@, c@));
    v
}

/// List a new data extent in the extent tree.
pub open spec fn list_extent(generation: u64, e: (u64, u64, u64, u64, u64)) -> OpV {
    OpV::Insert {
        key: Key { objectid: e.0, item_type: EXTENT_ITEM_KEY, offset: e.1 },
        data: data_extent_bytes(generation, e.2, e.3, e.4),
    }
}

/// Take a data extent off the extent tree.
pub open spec fn unlist_extent(e: (u64, u64)) -> OpV {
    OpV::Edit {
        key: Key { objectid: e.0, item_type: EXTENT_ITEM_KEY, offset: e.1 },
        edit: EditV::Delete,
    }
}

/// The changes of the extent tree for the data extents of `c`.
pub open spec fn extent_ops(c: ChangesV) -> Seq<OpV> {
    c.added.map_values(|e: (u64, u64, u64, u64, u64)| list_extent(c.generation, e))
        + c.dropped.map_values(|e: (u64, u64)| unlist_extent(e))
}

fn extent_changes(c: &Changes) -> (r: Vec<TreeOp>)
    ensures
        ops_of(r@) == extent_ops(c@),
{
    let mut v: Vec<TreeOp> = Vec::new();
    let ghost f = |e: (u64, u64, u64, u64, u64)| list_extent(c.generation, e);
    let ghost g = |e: (u64, u64)| unlist_extent(e);
    let n: usize = c.added.len();
    let mut i: usize = 0;
    assert(ops_of(v@) =~= c.added@.take(0).map_values(f));
    while i < n
        invariant
            i <= n,
            n == c.added@.len(),
            f == (|e: (u64, u64, u64, u64, u64)| list_extent(c.generation, e)),
            ops_of(v@) == c.added@.take(i as int).map_values(f),
        decreases n - i,
    {
        let e = c.added[i];
        let (key, data) = ExtentItem::emit_data_extent(e.0, e.1, c.generation, e.2, e.3, e.4);
        push_op(&mut v, TreeOp::Insert { key, data });
        i += 1;
        assert(ops_of(v@) =~= c.added@.take(i as int).map_values(f));
    }
    assert(c.added@.take(n as int) =~= c.added@);
    let ghost head = c.added@.map_values(f);
    let m: usize = c.dropped.len();
    let mut j: usize = 0;
    assert(ops_of(v@) =~= head + c.dropped@.take(0).map_values(g));
    while j < m
        invariant
            j <= m,
            m == c.dropped@.len(),
            g == (|e: (u64, u64)| unlist_extent(e)),
            ops_of(v@) == head + c.dropped@.take(j as int).map_values(g),
        decreases m - j,
    {
        let e = c.dropped[j];
        push_op(
            &mut v,
            TreeOp::Edit { key: Key::new(e.0, EXTENT_ITEM_KEY, e.1), edit: LeafEdit::Delete },
        );
        j += 1;
        assert(ops_of(v@) =~= head + c.dropped@.take(j as int).map_values(g));
    }
    assert(c.dropped@.take(m as int) =~= c.dropped@);
    assert(ops_of(v@) =~= extent_ops(c@));
    v
}

/// Take tree blocks off the extent tree.
pub open spec fn removal_ops(blocks: Seq<(u64, u8)>) -> Seq<OpV> {
    blocks.map_values(
        |b: (u64, u8)|
            OpV::Edit {
                key: Key { objectid: b.0, item_type: METADATA_ITEM_KEY, offset: b.1 as u64 },
                edit: EditV::Delete,
            },
    )
}

/// List tree blocks in the extent tree.
pub open spec fn adding_ops(blocks: Seq<(u64, u8, u64)>, generation: u64) -> Seq<OpV> {
    blocks.map_values(
        |b: (u64, u8, u64)|
            OpV::Insert {
                key: Key { objectid: b.0, item_type: METADATA_ITEM_KEY, offset: b.1 as u64 },
                data: tree_block_bytes(generation, b.2),
            },
    )
}

fn removal_changes(blocks: &Vec<(u64, u8)>) -> (r: Vec<TreeOp>)
    ensures
        ops_of(r@) == removal_ops(blocks@),
{
    let mut v: Vec<TreeOp> = Vec::new();
    let n: usize = blocks.len();
    let mut i: usize = 0;
    assert(ops_of(v@) =~= removal_ops(blocks@.take(0)));
    while i < n
        invariant
            i <= n,
            n == blocks@.len(),
            ops_of(v@) == removal_ops(blocks@.take(i as int)),
        decreases n - i,
    {
        let b = blocks[i];
        push_op(
            &mut v,
            TreeOp::Edit {
                key: Key::new(b.0, METADATA_ITEM_KEY, b.1 as u64),
                edit: LeafEdit::Delete,
            },
        );
        i += 1;
        assert(ops_of(v@) =~= removal_ops(blocks@.take(i as int)));
    }
    assert(blocks@.take(n as int) =~= blocks@);
    v
}

fn adding_changes(blocks: &Vec<(u64, u8, u64)>, generation: u64) -> (r: Vec<TreeOp>)
    ensures
        ops_of(r@) == adding_ops(blocks@, generation),
{
    let mut v: Vec<TreeOp> = Vec::new();
    let n: usize = blocks.len();
    let mut i: usize = 0;
    assert(ops_of(v@) =~= adding_ops(blocks@.take(0), generation));
    while i < n
        invariant
            i <= n,
            n == blocks@.len(),
            ops_of(v@) == adding_ops(blocks@.take(i as int), generation),
        decreases n - i,
    {
        let b = blocks[i];
        let (key, data) = MetadataItem::emit_tree_block(b.0, b.1, generation, b.2);
        push_op(&mut v, TreeOp::Insert { key, data });
        i += 1;
        assert(ops_of(v@) =~= adding_ops(blocks@.take(i as int), generation));
    }
    assert(blocks@.take(n as int) =~= blocks@);
    v
}

/// Bring the used counters in the extent tree up to date.
pub open spec fn used_ops(space: Seq<BgV>) -> Seq<OpV> {
    space.map_values(
        |b: BgV|
            OpV::Edit {
                key: Key {
                    objectid: b.group.start,
                    item_type: BLOCK_GROUP_ITEM_KEY,
                    offset: b.group.length,
                },
                edit: EditV::Used { used: b.group.used },
            },
    )
}

fn used_changes(a: &FreeSpaceMap) -> (r: Vec<TreeOp>)
    ensures
        ops_of(r@) == used_ops(a@),
{
    let mut v: Vec<TreeOp> = Vec::new();
    let n: usize = a.block_groups.len();
    let mut i: usize = 0;
    assert(ops_of(v@) =~= used_ops(a@.take(0)));
    while i < n
        invariant
            i <= n,
            n == a.block_groups@.len(),
            ops_of(v@) == used_ops(a@.take(i as int)),
        decreases n - i,
    {
        let g = a.block_groups[i].block_group;
        assert(a@[i as int].group == g);
        push_op(
            &mut v,
            TreeOp::Edit {
                key: Key::new(g.start, BLOCK_GROUP_ITEM_KEY, g.length),
                edit: LeafEdit::Used { used: g.used },
            },
        );
        i += 1;
        assert(ops_of(v@) =~= used_ops(a@.take(i as int)));
    }
    assert(a@.take(n as int) =~= a@);
    v
}

/// One round: the listed changes of tree blocks go into the extent tree. The
/// blocks that this changes in turn are listed anew.
#[verifier::opaque]
pub open spec fn round(fs: FsV, generation: u64, s: StateV, extent: (u64, u8)) -> Outcome<
    (StateV, (u64, u8)),
> {
    match steps(
        fs,
        generation,
        EXTENT_TREE_OBJECTID,
        StateV { remove: Seq::empty(), ..s },
        extent,
        removal_ops(s.remove),
    ) {
        Err(e) => Err(e),
        Ok((t, x)) => steps(
            fs,
            generation,
            EXTENT_TREE_OBJECTID,
            StateV { add: Seq::empty(), ..t },
            x,
            adding_ops(t.add, generation),
        ),
    }
}

/// Whether no tree block is left to record.
pub open spec fn settled(s: StateV) -> bool {
    s.add.len() == 0 && s.remove.len() == 0
}

/// Rounds until nothing is left to record, `rounds` at most.
pub open spec fn drained(fs: FsV, generation: u64, s: StateV, extent: (u64, u8), rounds: nat) -> Outcome<
    (StateV, (u64, u8)),
>
    decreases rounds,
{
    if rounds == 0 || settled(s) {
        Ok((s, extent))
    } else {
        match round(fs, generation, s, extent) {
            Err(e) => Err(e),
            Ok((t, x)) => drained(fs, generation, t, x, (rounds - 1) as nat),
        }
    }
}

/// The leaf that holds the whole free-space tree.
pub open spec fn space_leaf(
    fs: FsV,
    generation: u64,
    target: u64,
    flags: u64,
    chunk_tree_uuid: Seq<u8>,
    space: Seq<BgV>,
) -> LeafV {
    LeafV {
        bytenr: target,
        generation,
        owner: FREE_SPACE_TREE_OBJECTID,
        flags,
        metadata_uuid: fs.sb.metadata_uuid,
        chunk_tree_uuid,
        csum_type: fs.sb.csum_type,
        items: space_items(space),
    }
}

/// Rewrite the free-space tree, whose root is `old`.
#[verifier::opaque]
pub open spec fn space_tree_rewritten(
    fs: FsV,
    generation: u64,
    s: StateV,
    root: (u64, u8),
    old_root: TreeRoot,
) -> Outcome<(StateV, (u64, u8))> {
    match shape_refusal(old_root) {
        Some(e) => Err(e),
        None => match alloc_meta(s.space, fs.sb.node_size, 0) {
            None => Err(Fault::FilesystemFull),
            Some((target, rest)) => {
                let space = free_block(rest, old_root.bytenr, fs.sb.node_size);
                match node_at(fs, s.pending, old_root.bytenr) {
                    Err(e) => Err(e),
                    Ok(node) => if leaf_used(space_items(space)) >= fs.sb.node_size {
                        Err(
                            Fault::UnsupportedFsFeature(
                                "btrfs free-space tree no longer fits in a single leaf"@,
                            ),
                        )
                    } else {
                        match emit_leaf(
                            space_leaf(
                                fs,
                                generation,
                                target,
                                node.flags,
                                node.chunk_tree_uuid,
                                space,
                            ),
                            fs.sb.node_size,
                        ) {
                            Err(e) => Err(e),
                            Ok(raw) => steps(
                                fs,
                                generation,
                                ROOT_TREE_OBJECTID,
                                StateV {
                                    pending: s.pending.insert(target, raw),
                                    space,
                                    add: s.add.push((target, 0, FREE_SPACE_TREE_OBJECTID)),
                                    remove: s.remove.push((old_root.bytenr, 0)),
                                    ..s
                                },
                                root,
                                seq![
                                    repoint(
                                        FREE_SPACE_TREE_OBJECTID,
                                        generation,
                                        (target, 0),
                                        "fst root item not found"@,
                                        "root item truncated"@,
                                    ),
                                ],
                            ),
                        }
                    },
                }
            },
        },
    }
}

/// Whether the volume has a free-space tree.
pub open spec fn has_space_tree(fs: FsV) -> bool {
    fs.sb.compat_ro_flags & BTRFS_FEATURE_COMPAT_RO_FREE_SPACE_TREE != 0
}

/// Rewrite the free-space tree, if there is one.
pub open spec fn space_tree_updated(
    fs: FsV,
    generation: u64,
    s: StateV,
    root: (u64, u8),
    seen: bool,
) -> Outcome<(StateV, (u64, u8))> {
    if has_space_tree(fs) {
        match optional_root(fs, FREE_SPACE_TREE_OBJECTID, seen) {
            None => Ok((s, root)),
            Some(old_root) => space_tree_rewritten(fs, generation, s, root, old_root),
        }
    } else {
        Ok((s, root))
    }
}

/// A round that also brings the used counters and the root item of the extent
/// tree up to date.
#[verifier::opaque]
pub open spec fn closing_round(
    fs: FsV,
    generation: u64,
    s: StateV,
    root: (u64, u8),
    extent: (u64, u8),
) -> Outcome<(StateV, (u64, u8), (u64, u8))> {
    match round(fs, generation, s, extent) {
        Err(e) => Err(e),
        Ok((t, x)) => match steps(
            fs,
            generation,
            EXTENT_TREE_OBJECTID,
            t,
            x,
            used_ops(t.space),
        ) {
            Err(e) => Err(e),
            Ok((u, y)) => match steps(
                fs,
                generation,
                ROOT_TREE_OBJECTID,
                u,
                root,
                seq![
                    repoint(
                        EXTENT_TREE_OBJECTID,
                        generation,
                        y,
                        "extent root item not found"@,
                        "extent root item truncated"@,
                    ),
                ],
            ) {
                Err(e) => Err(e),
                Ok((v, z)) => Ok((v, z, y)),
            },
        },
    }
}

/// Closing rounds until nothing is left to record, `rounds` at most.
pub open spec fn closed(
    fs: FsV,
    generation: u64,
    s: StateV,
    root: (u64, u8),
    extent: (u64, u8),
    rounds: nat,
) -> Outcome<(StateV, (u64, u8))>
    decreases rounds,
{
    if rounds == 0 {
        Err(
            Fault::CorruptFs(
                "btrfs transaction did not converge: extent-tree bookkeeping still had blocks to record after the round limit"@,
            ),
        )
    } else {
        match closing_round(fs, generation, s, root, extent) {
            Err(e) => Err(e),
            Ok((t, r, x)) => if settled(t) {
                Ok((t, r))
            } else {
                closed(fs, generation, t, r, x, (rounds - 1) as nat)
            },
        }
    }
}

/// The root of the extent tree that `c` leaves.
pub open spec fn extent_start(fs: FsV, c: ChangesV) -> Outcome<(u64, u8)> {
    match c.extent_root {
        Some(x) => Ok(x),
        None => match root_of(fs, EXTENT_TREE_OBJECTID) {
            Err(e) => Err(e),
            Ok(x) => Ok((x.bytenr, x.level)),
        },
    }
}

/// The transaction that the changes `c`, made in state `s`, come to; `fst` says
/// whether the lookup of the free-space tree went through.
#[verifier::opaque]
pub open spec fn finalized(fs: FsV, c: ChangesV, s: StateV, fst: bool) -> Outcome<TxnV> {
    match extent_start(fs, c) {
        Err(e) => Err(e),
        Ok(x0) => match steps(
            fs,
            c.generation,
            ROOT_TREE_OBJECTID,
            s,
            (fs.sb.root, fs.sb.root_level),
            root_ops(fs, c),
        ) {
            Err(e) => Err(e),
            Ok((s1, r1)) => match steps(
                fs,
                c.generation,
                EXTENT_TREE_OBJECTID,
                s1,
                x0,
                extent_ops(c),
            ) {
                Err(e) => Err(e),
                Ok((s2, x2)) => match drained(
                    fs,
                    c.generation,
                    s2,
                    x2,
                    MAX_CONVERGENCE_ROUNDS as nat,
                ) {
                    Err(e) => Err(e),
                    Ok((s3, x3)) => match space_tree_updated(fs, c.generation, s3, r1, fst) {
                        Err(e) => Err(e),
                        Ok((s4, r4)) => match closed(
                            fs,
                            c.generation,
                            s4,
                            r4,
                            x3,
                            MAX_CONVERGENCE_ROUNDS as nat,
                        ) {
                            Err(e) => Err(e),
                            Ok((s5, r5)) => Ok(
                                TxnV {
                                    generation: c.generation,
                                    root: r5,
                                    chunk_root: c.chunk_root,
                                    bytes_used: cap64(used_sum(s5.space)),
                                    fs_tree: c.fs_tree,
                                    blocks: s5.pending,
                                    data: c.data,
                                    space: Some(s5.space),
                                },
                            ),
                        },
                    },
                },
            },
        },
    }
}

fn run_round<D: ReadAt>(fs: &Btrfs<D>, generation: u64, w: &mut Workspace, extent: (u64, u8)) -> (r:
    Result<(u64, u8)>)
    ensures
        agrees(
            fs.steady(),
            r,
            round(fs@, generation, old(w)@, extent),
            |x: (u64, u8)| (final(w)@, x),
        ),
{
    reveal(round);
    let ghost s = w@;
    let removal = removal_changes(&w.remove);
    w.remove = Vec::new();
    assert(w@ =~= StateV { remove: Seq::empty(), ..s });
    let x = w.apply_all(fs, generation, EXTENT_TREE_OBJECTID, extent, &removal)?;
    let ghost t = w@;
    let adding = adding_changes(&w.add, generation);
    w.add = Vec::new();
    assert(w@ =~= StateV { add: Seq::empty(), ..t });
    w.apply_all(fs, generation, EXTENT_TREE_OBJECTID, x, &adding)
}

fn drain<D: ReadAt>(fs: &Btrfs<D>, generation: u64, w: &mut Workspace, extent: (u64, u8)) -> (r:
    Result<(u64, u8)>)
    ensures
        agrees(
            fs.steady(),
            r,
            drained(fs@, generation, old(w)@, extent, MAX_CONVERGENCE_ROUNDS as nat),
            |x: (u64, u8)| (final(w)@, x),
        ),
{
    let ghost s0 = w@;
    let mut x: (u64, u8) = extent;
    let mut left: u32 = MAX_CONVERGENCE_ROUNDS;
    while left > 0 && !(w.add.len() == 0 && w.remove.len() == 0)
        invariant
            s0 == old(w)@,
            drained(fs@, generation, s0, extent, MAX_CONVERGENCE_ROUNDS as nat) == drained(
                fs@,
                generation,
                w@,
                x,
                left as nat,
            ),
        decreases left,
    {
        x = run_round(fs, generation, w, x)?;
        left -= 1;
    }
    Ok(x)
}

fn rewrite_space_tree<D: ReadAt>(
    fs: &Btrfs<D>,
    generation: u64,
    w: &mut Workspace,
    root: (u64, u8),
    old_root: &TreeRoot,
) -> (r: Result<(u64, u8)>)
    ensures
        agrees(
            fs.steady(),
            r,
            space_tree_rewritten(fs@, generation, old(w)@, root, *old_root),
            |x: (u64, u8)| (final(w)@, x),
        ),
{
    reveal(space_tree_rewritten);
    check_free_space_tree_shape(old_root)?;
    let sb = fs.superblock();
    let target = w.allocator.allocate_metadata(sb.node_size)?;
    w.add.push((target, 0, FREE_SPACE_TREE_OBJECTID));
    w.remove.push((old_root.bytenr, 0));
    let _ = w.allocator.free_metadata(old_root.bytenr, sb.node_size);
    let node = read_node(fs, &w.pending, old_root.bytenr)?;
    let leaf = Leaf {
        bytenr: target,
        generation,
        owner: FREE_SPACE_TREE_OBJECTID,
        flags: node.flags,
        metadata_uuid: sb.metadata_uuid,
        chunk_tree_uuid: node.chunk_tree_uuid,
        csum_type: sb.csum_type,
        items: w.allocator.emit_free_space_tree_items(),
    };
    let ghost model = space_leaf(
        fs@,
        generation,
        target,
        node@.flags,
        node@.chunk_tree_uuid,
        w@.space,
    );
    assert(leaf@ == model);
    if leaf.free_space(sb.node_size) == 0 {
        return Err(
            LuksError::UnsupportedFsFeature(
                text("btrfs free-space tree no longer fits in a single leaf"),
            ),
        );
    }
    let raw = leaf.emit(sb.node_size)?;
    w.pending.insert(target, raw);
    let mut ops: Vec<TreeOp> = Vec::new();
    ops.push(
        repoint_op(
            FREE_SPACE_TREE_OBJECTID,
            generation,
            (target, 0),
            "fst root item not found",
            "root item truncated",
        ),
    );
    assert(ops_of(ops@) =~= seq![
        repoint(
            FREE_SPACE_TREE_OBJECTID,
            generation,
            (target, 0),
            "fst root item not found"@,
            "root item truncated"@,
        ),
    ]);
    w.apply_all(fs, generation, ROOT_TREE_OBJECTID, root, &ops)
}

fn run_closing_round<D: ReadAt>(
    fs: &Btrfs<D>,
    generation: u64,
    w: &mut Workspace,
    root: (u64, u8),
    extent: (u64, u8),
) -> (r: Result<((u64, u8), (u64, u8))>)
    ensures
        agrees(
            fs.steady(),
            r,
            closing_round(fs@, generation, old(w)@, root, extent),
            |x: ((u64, u8), (u64, u8))| (final(w)@, x.0, x.1),
        ),
{
    reveal(closing_round);
    let x = run_round(fs, generation, w, extent)?;
    let used = used_changes(&w.allocator);
    let y = w.apply_all(fs, generation, EXTENT_TREE_OBJECTID, x, &used)?;
    let mut ops: Vec<TreeOp> = Vec::new();
    ops.push(
        repoint_op(
            EXTENT_TREE_OBJECTID,
            generation,
            y,
            "extent root item not found",
            "extent root item truncated",
        ),
    );
    assert(ops_of(ops@) =~= seq![
        repoint(
            EXTENT_TREE_OBJECTID,
            generation,
            y,
            "extent root item not found"@,
            "extent root item truncated"@,
        ),
    ]);
    let z = w.apply_all(fs, generation, ROOT_TREE_OBJECTID, root, &ops)?;
    Ok((z, y))
}

fn close<D: ReadAt>(
    fs: &Btrfs<D>,
    generation: u64,
    w: &mut Workspace,
    root: (u64, u8),
    extent: (u64, u8),
) -> (r: Result<(u64, u8)>)
    ensures
        agrees(
            fs.steady(),
            r,
            closed(fs@, generation, old(w)@, root, extent, MAX_CONVERGENCE_ROUNDS as nat),
            |x: (u64, u8)| (final(w)@, x),
        ),
{
    let ghost s0 = w@;
    let mut at: (u64, u8) = root;
    let mut x: (u64, u8) = extent;
    let mut left: u32 = MAX_CONVERGENCE_ROUNDS;
    while left > 0
        invariant
            s0 == old(w)@,
            closed(fs@, generation, s0, root, extent, MAX_CONVERGENCE_ROUNDS as nat) == closed(
                fs@,
                generation,
                w@,
                at,
                x,
                left as nat,
            ),
        decreases left,
    {
        let (z, y) = run_closing_round(fs, generation, w, at, x)?;
        at = z;
        x = y;
        left -= 1;
        if w.add.len() == 0 && w.remove.len() == 0 {
            return Ok(at);
        }
    }
    Err(
        LuksError::CorruptFs(
            "btrfs transaction did not converge: extent-tree bookkeeping still had blocks to record after the round limit",
        ),
    )
}

/// Whether `r` is what the changes `c`, made in state `s`, come to.
pub open spec fn finalizes(
    steady: bool,
    r: Result<Transaction>,
    fs: FsV,
    c: ChangesV,
    s: StateV,
) -> bool {
    exists|fst: bool| #[trigger]
        looked_up(steady, fst) && tracks(steady, r, finalized(fs, c, s, fst))
}

/// Bring the changes made in `w` to their fixed point.
pub fn converge_and_finalize<D: ReadAt>(fs: &Btrfs<D>, c: Changes, w: Workspace) -> (r: Result<
    Transaction,
>)
    ensures
        finalizes(fs.steady(), r, fs@, c@, w@),
{
    reveal(finalized);
    assert(looked_up(fs.steady(), true));
    let mut w = w;
    let generation: u64 = c.generation;
    let x0: (u64, u8) = match c.extent_root {
        Some(x) => x,
        None => {
            let x = fs.tree_root(EXTENT_TREE_OBJECTID)?;
            (x.bytenr, x.level)
        },
    };
    let sb = fs.superblock();
    let start: (u64, u8) = (sb.root, sb.root_level);
    let to_root = root_changes(fs, &c);
    let r1 = w.apply_all(fs, generation, ROOT_TREE_OBJECTID, start, &to_root)?;
    let to_extent = extent_changes(&c);
    let x2 = w.apply_all(fs, generation, EXTENT_TREE_OBJECTID, x0, &to_extent)?;
    let x3 = drain(fs, generation, &mut w, x2)?;
    let mut r4: (u64, u8) = r1;
    let ghost mut seen = true;
    if sb.compat_ro_flags & BTRFS_FEATURE_COMPAT_RO_FREE_SPACE_TREE != 0 {
        let found = fs.find_root(FREE_SPACE_TREE_OBJECTID);
        proof {
            if found != optional_root(fs@, FREE_SPACE_TREE_OBJECTID, true) {
                seen = false;
            }
        }
        assert(found == optional_root(fs@, FREE_SPACE_TREE_OBJECTID, seen));
        assert(looked_up(fs.steady(), seen));
        if let Some(old_root) = found {
            r4 = rewrite_space_tree(fs, generation, &mut w, r1, &old_root)?;
        }
    }
    assert(looked_up(fs.steady(), seen));
    let r5 = close(fs, generation, &mut w, r4, x3)?;
    let used: u64 = w.allocator.total_used();
    Ok(
        Transaction {
            new_generation: generation,
            final_root_bytenr: r5.0,
            final_root_level: r5.1,
            final_chunk_root: c.chunk_root,
            final_bytes_used: used,
            new_fs_tree: c.fs_tree,
            pending_blocks: w.pending,
            pending_data: c.data,
            final_allocator: Some(w.allocator),
        },
    )
}

} // verus!
