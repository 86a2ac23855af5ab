//! Copy-on-write path copying.
//!
//! A leaf is never edited in place: it is copied to a newly allocated block,
//! and its ancestors up to the root are copied with updated child pointers. A
//! block that the same transaction already copied is rewritten where it is.

use vstd::prelude::*;

use crate::device::ReadAt;
use crate::error::{text, Fault, LuksError, Outcome, Result};
use crate::fs::btrfs::blocks::BlockMap;
use crate::fs::btrfs::tree::{
    child_index, child_index_range, item_label, item_type_name, items_of, Item, Key, Node, NodeV,
};
use crate::fs::btrfs::volume::{node_at, Btrfs, FsV};
use crate::fs::btrfs::write::edit::{edit_items, EditV};
use crate::fs::btrfs::write::node::{
    copy_items, data_sum_bound, emit_interior, emit_leaf, find_slot, has_key, insert_into,
    interior_of, interior_used, leaf_of, leaf_used, max_item_payload_bytes, payload_limit, slot,
    slot_bounds, used_bytes, InteriorEntry, InteriorNode, InteriorV, Leaf, LeafItem, LeafV,
};
use crate::fs::btrfs::write::payload::pairs_of;
use crate::fs::btrfs::write::space::{alloc_meta, BgV, FreeSpaceMap};
use crate::sort::{sort_ranked, stable_sort, stable_sort_sorts};

pub use crate::fs::btrfs::volume::read_node;

verus! {

/// Outcome of a copy-on-write change of a tree.
#[derive(Debug)]
pub struct CowResult {
    pub new_root_bytenr: u64,
    pub new_root_level: u8,
    /// Blocks to write, by logical address.
    pub emitted_blocks: Vec<(u64, Vec<u8>)>,
    /// Blocks taken from the allocator, with their levels.
    pub allocated: Vec<(u64, u8)>,
    /// Blocks that are no longer referenced, with their levels.
    pub freed: Vec<(u64, u8)>,
}

/// The mathematical view of a [`CowResult`], with the allocator behind it.
pub struct CowV {
    pub root: u64,
    pub level: u8,
    pub emitted: Seq<(u64, Seq<u8>)>,
    pub allocated: Seq<(u64, u8)>,
    pub freed: Seq<(u64, u8)>,
    pub space: Seq<BgV>,
}

/// `r`, with `space` as the allocator behind it.
pub open spec fn cow_of(r: CowResult, space: Seq<BgV>) -> CowV {
    CowV {
        root: r.new_root_bytenr,
        level: r.new_root_level,
        emitted: pairs_of(r.emitted_blocks@),
        allocated: r.allocated@,
        freed: r.freed@,
        space,
    }
}

/// What a change is made against: the volume, the blocks built so far, and the
/// tree and transaction that new blocks belong to.
pub struct Cow {
    pub fs: FsV,
    pub pending: Map<u64, Seq<u8>>,
    pub owner: u64,
    pub generation: u64,
}

/// Where a node is written.
pub struct Spot {
    pub target: u64,
    pub allocated: Seq<(u64, u8)>,
    pub freed: Seq<(u64, u8)>,
    pub space: Seq<BgV>,
}

/// Where a node of `level` is written: at `reuse` if that is given, else in a
/// new block; a new block frees `replaces`.
pub open spec fn spot(
    c: Cow,
    space: Seq<BgV>,
    level: u8,
    reuse: Option<u64>,
    replaces: Option<u64>,
) -> Option<Spot> {
    match reuse {
        Some(b) => Some(
            Spot { target: b, allocated: Seq::empty(), freed: Seq::empty(), space },
        ),
        None => match alloc_meta(space, c.fs.sb.node_size, c.owner) {
            None => None,
            Some((b, rest)) => Some(
                Spot {
                    target: b,
                    allocated: seq![(b, level)],
                    freed: match replaces {
                        Some(o) => seq![(o, level)],
                        None => Seq::empty(),
                    },
                    space: rest,
                },
            ),
        },
    }
}

/// The space that is left after `k` blocks are taken for `owner`, if there are
/// so many.
pub open spec fn drawn(space: Seq<BgV>, size: u32, owner: u64, k: nat) -> Option<Seq<BgV>>
    decreases k,
{
    if k == 0 {
        Some(space)
    } else {
        match drawn(space, size, owner, (k - 1) as nat) {
            None => None,
            Some(rest) => match alloc_meta(rest, size, owner) {
                None => None,
                Some((_, rest)) => Some(rest),
            },
        }
    }
}

/// `after` is what taking some number of blocks for `owner` leaves of `before`.
pub open spec fn draws(before: Seq<BgV>, after: Seq<BgV>, size: u32, owner: u64) -> bool {
    exists|k: nat| #[trigger] drawn(before, size, owner, k) == Some(after)
}

/// Taking no block leaves the space as it is.
pub proof fn draws_none(space: Seq<BgV>, size: u32, owner: u64)
    ensures
        draws(space, space, size, owner),
{
    assert(drawn(space, size, owner, 0) == Some(space));
}

/// Taking one block is to draw on the space.
pub proof fn draws_one(before: Seq<BgV>, size: u32, owner: u64)
    requires
        alloc_meta(before, size, owner) is Some,
    ensures
        draws(before, alloc_meta(before, size, owner)->Some_0.1, size, owner),
{
    assert(drawn(before, size, owner, 0) == Some(before));
    assert(drawn(before, size, owner, 1) == Some(alloc_meta(before, size, owner)->Some_0.1));
}

proof fn drawn_on(a: Seq<BgV>, b: Seq<BgV>, size: u32, owner: u64, j: nat, k: nat)
    requires
        drawn(a, size, owner, j) == Some(b),
    ensures
        drawn(a, size, owner, j + k) == drawn(b, size, owner, k),
    decreases k,
{
    if k > 0 {
        drawn_on(a, b, size, owner, j, (k - 1) as nat);
        assert(((j + k) - 1) as nat == j + (k - 1) as nat);
    }
}

/// To draw on the space, and to draw on what is left, is to draw on it.
pub proof fn draws_on(a: Seq<BgV>, b: Seq<BgV>, c: Seq<BgV>, size: u32, owner: u64)
    requires
        draws(a, b, size, owner),
        draws(b, c, size, owner),
    ensures
        draws(a, c, size, owner),
{
    let j = choose|k: nat| #[trigger] drawn(a, size, owner, k) == Some(b);
    let k = choose|k: nat| #[trigger] drawn(b, size, owner, k) == Some(c);
    drawn_on(a, b, size, owner, j, k);
}

/// The block to reuse for `bytenr`: the block itself where this transaction
/// built it.
pub open spec fn reusable(c: Cow, node: NodeV, bytenr: u64) -> Option<u64> {
    if node.generation == c.generation && c.pending.contains_key(bytenr) {
        Some(bytenr)
    } else {
        None
    }
}

/// What an insert below a node comes to: the nodes that replace it, left to
/// right, each with its lowest key.
pub struct InsertV {
    pub heads: Seq<(Key, u64)>,
    pub emitted: Seq<(u64, Seq<u8>)>,
    pub allocated: Seq<(u64, u8)>,
    pub freed: Seq<(u64, u8)>,
    pub space: Seq<BgV>,
}

/// Write `groups` of items as leaves that share the header of `h`; the first
/// one takes the place of `bytenr`.
pub open spec fn place(
    c: Cow,
    space: Seq<BgV>,
    h: LeafV,
    groups: Seq<Seq<Item>>,
    reuse: Option<u64>,
    bytenr: u64,
) -> Outcome<InsertV>
    decreases groups.len(),
{
    if groups.len() == 0 {
        Ok(
            InsertV {
                heads: Seq::empty(),
                emitted: Seq::empty(),
                allocated: Seq::empty(),
                freed: Seq::empty(),
                space,
            },
        )
    } else {
        match place(c, space, h, groups.drop_last(), reuse, bytenr) {
            Err(e) => Err(e),
            Ok(p) => {
                let first = groups.len() == 1;
                let s = spot(
                    c,
                    p.space,
                    0,
                    if first {
                        reuse
                    } else {
                        None
                    },
                    if first {
                        Some(bytenr)
                    } else {
                        None
                    },
                );
                match s {
                    None => Err(Fault::FilesystemFull),
                    Some(s) => match emit_leaf(
                        LeafV {
                            bytenr: s.target,
                            generation: c.generation,
                            owner: c.owner,
                            items: groups.last(),
                            ..h
                        },
                        c.fs.sb.node_size,
                    ) {
                        Err(e) => Err(e),
                        Ok(raw) => Ok(
                            InsertV {
                                heads: p.heads.push((groups.last()[0].key, s.target)),
                                emitted: p.emitted.push((s.target, raw)),
                                allocated: p.allocated + s.allocated,
                                freed: p.freed + s.freed,
                                space: s.space,
                            },
                        ),
                    },
                }
            },
        }
    }
}

/// A group of items as one of several, unless it is empty.
pub open spec fn kept(g: Seq<Item>) -> Seq<Seq<Item>> {
    if g.len() == 0 {
        Seq::empty()
    } else {
        seq![g]
    }
}

/// How a new item is laid into a full leaf: one group of items per resulting
/// leaf, left to right.
///
/// Three shapes are tried in order: the item ends the left leaf, the item
/// starts the right leaf, the item gets a leaf to itself.
pub open spec fn split_plan(items: Seq<Item>, pos: int, it: Item, node_size: u32) -> Seq<
    Seq<Item>,
> {
    let left = items.take(pos);
    let right = items.skip(pos);
    if leaf_used(left.push(it)) <= node_size {
        kept(left.push(it)) + kept(right)
    } else if leaf_used(seq![it] + right) <= node_size {
        kept(left) + kept(seq![it] + right)
    } else {
        kept(left) + kept(seq![it]) + kept(right)
    }
}

/// The leaf that an insert starts from; an emptied interior root counts as an
/// empty leaf.
pub open spec fn base_leaf(c: Cow, node: NodeV) -> LeafV {
    if node.level == 0 {
        leaf_of(node, c.fs.sb.csum_type)
    } else {
        LeafV {
            bytenr: node.bytenr,
            generation: node.generation,
            owner: node.owner,
            flags: 1,
            metadata_uuid: node.metadata_uuid,
            chunk_tree_uuid: node.chunk_tree_uuid,
            csum_type: c.fs.sb.csum_type,
            items: Seq::empty(),
        }
    }
}

/// The leaves' items once `it` was inserted among `items`.
pub open spec fn leaf_groups(items: Seq<Item>, it: Item, node_size: u32) -> Outcome<
    Seq<Seq<Item>>,
> {
    if leaf_used(items) + 25 + it.data.len() <= node_size {
        match insert_into(items, it, node_size) {
            Err(e) => Err(e),
            Ok(all) => Ok(seq![all]),
        }
    } else if it.data.len() > payload_limit(node_size) {
        Err(
            Fault::BtrfsItemTooLarge {
                what: item_label(it.key.item_type),
                item_bytes: it.data.len(),
                node_size: node_size as nat,
            },
        )
    } else if has_key(items, it.key) {
        Err(Fault::AlreadyExists("duplicate key in leaf"@))
    } else {
        Ok(split_plan(items, slot(items, it.key), it, node_size))
    }
}

/// An interior entry for each head.
pub open spec fn entries_for(heads: Seq<(Key, u64)>, generation: u64) -> Seq<InteriorEntry> {
    heads.map_values(
        |h: (Key, u64)| InteriorEntry { key: h.0, blockptr: h.1, generation },
    )
}

/// The entries of a node once child `i` was replaced by `heads`.
pub open spec fn grown(
    entries: Seq<InteriorEntry>,
    i: int,
    heads: Seq<(Key, u64)>,
    generation: u64,
) -> Seq<InteriorEntry> {
    let own = entries.update(i, entries_for(heads, generation)[0]);
    if heads.len() > 1 {
        stable_sort(own + entries_for(heads.skip(1), generation))
    } else {
        own
    }
}

/// An interior node of this transaction, written.
pub open spec fn write_interior(
    c: Cow,
    h: InteriorV,
    target: u64,
    entries: Seq<InteriorEntry>,
) -> Outcome<Seq<u8>> {
    emit_interior(
        InteriorV { bytenr: target, generation: c.generation, owner: c.owner, entries, ..h },
        c.fs.sb.node_size,
    )
}

/// What an insert below child `i` of an interior node comes to.
pub open spec fn regrow(
    c: Cow,
    h: InteriorV,
    i: int,
    child: InsertV,
    level: u8,
    reuse: Option<u64>,
    bytenr: u64,
) -> Outcome<InsertV> {
    let entries = grown(h.entries, i, child.heads, c.generation);
    if child.heads.len() <= 1 || interior_used(entries.len()) <= c.fs.sb.node_size {
        match spot(c, child.space, level, reuse, Some(bytenr)) {
            None => Err(Fault::FilesystemFull),
            Some(s) => match write_interior(c, h, s.target, entries) {
                Err(e) => Err(e),
                Ok(raw) => Ok(
                    InsertV {
                        heads: seq![(entries[0].key, s.target)],
                        emitted: child.emitted.push((s.target, raw)),
                        allocated: child.allocated + s.allocated,
                        freed: child.freed + s.freed,
                        space: s.space,
                    },
                ),
            },
        }
    } else {
        match spot(c, child.space, level, None, None) {
            None => Err(Fault::FilesystemFull),
            Some(r) => if entries.len() < 2 {
                Err(Fault::CorruptFs("cannot split interior node with fewer than 2 entries"@))
            } else {
                match spot(c, r.space, level, reuse, Some(bytenr)) {
                    None => Err(Fault::FilesystemFull),
                    Some(l) => {
                        let mid = entries.len() as int / 2;
                        match write_interior(c, h, l.target, entries.take(mid)) {
                            Err(e) => Err(e),
                            Ok(lraw) => match write_interior(c, h, r.target, entries.skip(mid)) {
                                Err(e) => Err(e),
                                Ok(rraw) => Ok(
                                    InsertV {
                                        heads: seq![
                                            (entries[0].key, l.target),
                                            (entries[mid].key, r.target),
                                        ],
                                        emitted: child.emitted.push((l.target, lraw)).push(
                                            (r.target, rraw),
                                        ),
                                        allocated: child.allocated + r.allocated + l.allocated,
                                        freed: child.freed + l.freed,
                                        space: l.space,
                                    },
                                ),
                            },
                        }
                    },
                }
            },
        }
    }
}

/// What inserting `it` below the node at `bytenr` comes to.
#[verifier::opaque]
pub open spec fn insert_below(c: Cow, space: Seq<BgV>, bytenr: u64, level: u8, it: Item) -> Outcome<
    InsertV,
>
    decreases level,
{
    match node_at(c.fs, c.pending, bytenr) {
        Err(e) => Err(e),
        Ok(node) => if level == 0 || node.nr_items() == 0 {
            let h = base_leaf(c, node);
            match leaf_groups(h.items, it, c.fs.sb.node_size) {
                Err(e) => Err(e),
                Ok(groups) => place(c, space, h, groups, reusable(c, node, bytenr), bytenr),
            }
        } else if node.level == 0 {
            Err(Fault::CorruptFs("cannot convert leaf to interior node"@))
        } else {
            let i = child_index(node.ptrs, it.key);
            match insert_below(c, space, node.ptrs[i].blockptr, (level - 1) as u8, it) {
                Err(e) => Err(e),
                Ok(child) => regrow(
                    c,
                    interior_of(node, c.fs.sb.csum_type),
                    i,
                    child,
                    level,
                    reusable(c, node, bytenr),
                    bytenr,
                ),
            }
        },
    }
}

/// The header of a new root above a split one.
pub open spec fn root_header(c: Cow, node: NodeV, level: u8) -> InteriorV {
    InteriorV {
        bytenr: 0,
        generation: 0,
        owner: 0,
        level,
        flags: node.flags,
        metadata_uuid: c.fs.sb.metadata_uuid,
        chunk_tree_uuid: node.chunk_tree_uuid,
        csum_type: c.fs.sb.csum_type,
        entries: Seq::empty(),
    }
}

/// What inserting `it` into the tree at `root` comes to.
#[verifier::opaque]
pub open spec fn tree_insert(c: Cow, space: Seq<BgV>, root: u64, level: u8, it: Item) -> Outcome<
    CowV,
> {
    match insert_below(c, space, root, level, it) {
        Err(e) => Err(e),
        Ok(d) => match node_at(c.fs, c.pending, root) {
            Err(e) => Err(e),
            Ok(node) => if d.heads.len() > 1 {
                let above = if node.nr_items() == 0 {
                    1u8
                } else {
                    level.saturating_add(1)
                };
                match spot(c, d.space, above, None, None) {
                    None => Err(Fault::FilesystemFull),
                    Some(s) => match write_interior(
                        c,
                        root_header(c, node, above),
                        s.target,
                        entries_for(d.heads, c.generation),
                    ) {
                        Err(e) => Err(e),
                        Ok(raw) => Ok(
                            CowV {
                                root: s.target,
                                level: above,
                                emitted: d.emitted.push((s.target, raw)),
                                allocated: d.allocated + s.allocated,
                                freed: d.freed,
                                space: s.space,
                            },
                        ),
                    },
                }
            } else {
                Ok(
                    CowV {
                        root: d.heads[0].1,
                        level: if node.nr_items() == 0 {
                            0
                        } else {
                            level
                        },
                        emitted: d.emitted,
                        allocated: d.allocated,
                        freed: d.freed,
                        space: d.space,
                    },
                )
            },
        },
    }
}

/// What an edit below a node comes to: the node that replaces it with its
/// lowest key and level, or `None` where nothing is left of it.
pub struct EditedV {
    pub node: Option<(u64, Key, u8)>,
    pub emitted: Seq<(u64, Seq<u8>)>,
    pub allocated: Seq<(u64, u8)>,
    pub freed: Seq<(u64, u8)>,
    pub space: Seq<BgV>,
}

/// A leaf with edited items, put in the place of `bytenr`.
pub open spec fn leaf_edited(
    c: Cow,
    space: Seq<BgV>,
    h: LeafV,
    items: Seq<Item>,
    reuse: Option<u64>,
    bytenr: u64,
    key: Key,
    is_root: bool,
) -> Outcome<EditedV> {
    if items.len() == 0 && !is_root {
        Ok(
            EditedV {
                node: None,
                emitted: Seq::empty(),
                allocated: Seq::empty(),
                freed: seq![(bytenr, 0u8)],
                space,
            },
        )
    } else {
        match spot(c, space, 0, reuse, Some(bytenr)) {
            None => Err(Fault::FilesystemFull),
            Some(s) => match emit_leaf(
                LeafV {
                    bytenr: s.target,
                    generation: c.generation,
                    owner: c.owner,
                    items,
                    ..h
                },
                c.fs.sb.node_size,
            ) {
                Err(e) => Err(e),
                Ok(raw) => Ok(
                    EditedV {
                        node: Some(
                            (
                                s.target,
                                if items.len() == 0 {
                                    key
                                } else {
                                    items[0].key
                                },
                                0u8,
                            ),
                        ),
                        emitted: seq![(s.target, raw)],
                        allocated: s.allocated,
                        freed: s.freed,
                        space: s.space,
                    },
                ),
            },
        }
    }
}

/// The entries of a node once child `i` was edited.
pub open spec fn child_edited(
    entries: Seq<InteriorEntry>,
    i: int,
    node: Option<(u64, Key, u8)>,
    generation: u64,
) -> Seq<InteriorEntry> {
    match node {
        Some((b, k, _)) => entries.update(i, InteriorEntry { key: k, blockptr: b, generation }),
        None => entries.remove(i),
    }
}

/// An interior node with an edited child, put in the place of `bytenr`.
///
/// An emptied node goes; an emptied root becomes an empty leaf; a root with a
/// single child gives way to it.
pub open spec fn interior_edited(
    c: Cow,
    node: NodeV,
    entries: Seq<InteriorEntry>,
    child: EditedV,
    level: u8,
    reuse: Option<u64>,
    bytenr: u64,
    key: Key,
    is_root: bool,
) -> Outcome<EditedV> {
    if entries.len() == 0 && !is_root {
        Ok(EditedV { node: None, freed: child.freed.push((bytenr, level)), ..child })
    } else if entries.len() == 0 {
        match alloc_meta(child.space, c.fs.sb.node_size, c.owner) {
            None => Err(Fault::FilesystemFull),
            Some((b, rest)) => match emit_leaf(
                LeafV {
                    bytenr: b,
                    generation: c.generation,
                    owner: c.owner,
                    flags: 1,
                    metadata_uuid: node.metadata_uuid,
                    chunk_tree_uuid: node.chunk_tree_uuid,
                    csum_type: c.fs.sb.csum_type,
                    items: Seq::empty(),
                },
                c.fs.sb.node_size,
            ) {
                Err(e) => Err(e),
                Ok(raw) => Ok(
                    EditedV {
                        node: Some((b, key, 0u8)),
                        emitted: child.emitted.push((b, raw)),
                        allocated: child.allocated.push((b, 0u8)),
                        freed: child.freed.push((bytenr, level)),
                        space: rest,
                    },
                ),
            },
        }
    } else if is_root && entries.len() == 1 {
        Ok(
            EditedV {
                node: Some((entries[0].blockptr, entries[0].key, (level - 1) as u8)),
                freed: child.freed.push((bytenr, level)),
                ..child
            },
        )
    } else {
        match spot(c, child.space, level, reuse, Some(bytenr)) {
            None => Err(Fault::FilesystemFull),
            Some(s) => match write_interior(
                c,
                interior_of(node, c.fs.sb.csum_type),
                s.target,
                entries,
            ) {
                Err(e) => Err(e),
                Ok(raw) => Ok(
                    EditedV {
                        node: Some((s.target, entries[0].key, level)),
                        emitted: child.emitted.push((s.target, raw)),
                        allocated: child.allocated + s.allocated,
                        freed: child.freed + s.freed,
                        space: s.space,
                    },
                ),
            },
        }
    }
}

/// What editing the item with `key` below the node at `bytenr` comes to.
#[verifier::opaque]
pub open spec fn edit_below(
    c: Cow,
    space: Seq<BgV>,
    bytenr: u64,
    level: u8,
    key: Key,
    edit: EditV,
    is_root: bool,
) -> Outcome<EditedV>
    decreases level,
{
    match node_at(c.fs, c.pending, bytenr) {
        Err(e) => Err(e),
        Ok(node) => if level == 0 {
            if node.level != 0 {
                Err(Fault::CorruptFs("cannot convert interior node to leaf"@))
            } else {
                match edit_items(node.items, key, edit) {
                    Err(e) => Err(e),
                    Ok(items) => leaf_edited(
                        c,
                        space,
                        leaf_of(node, c.fs.sb.csum_type),
                        items,
                        reusable(c, node, bytenr),
                        bytenr,
                        key,
                        is_root,
                    ),
                }
            }
        } else if node.level == 0 {
            Err(Fault::CorruptFs("cannot convert leaf to interior node"@))
        } else if node.ptrs.len() == 0 {
            Err(Fault::CorruptFs("btrfs node has no items"@))
        } else {
            let i = child_index(node.ptrs, key);
            match edit_below(
                c,
                space,
                node.ptrs[i].blockptr,
                (level - 1) as u8,
                key,
                edit,
                false,
            ) {
                Err(e) => Err(e),
                Ok(child) => interior_edited(
                    c,
                    node,
                    child_edited(
                        interior_of(node, c.fs.sb.csum_type).entries,
                        i,
                        child.node,
                        c.generation,
                    ),
                    child,
                    level,
                    reusable(c, node, bytenr),
                    bytenr,
                    key,
                    is_root,
                ),
            }
        },
    }
}

/// What editing the item with `key` in the tree at `root` comes to.
#[verifier::opaque]
pub open spec fn tree_edit(
    c: Cow,
    space: Seq<BgV>,
    root: u64,
    level: u8,
    key: Key,
    edit: EditV,
) -> Outcome<CowV> {
    tree_of_edit(edit_below(c, space, root, level, key, edit, true))
}

/// The leaf below the node at `bytenr` in which `key` belongs.
pub open spec fn leaf_for(c: Cow, bytenr: u64, level: u8, key: Key) -> Outcome<LeafV>
    decreases level,
{
    match node_at(c.fs, c.pending, bytenr) {
        Err(e) => Err(e),
        Ok(node) => if level == 0 {
            if node.level != 0 {
                Err(Fault::CorruptFs("cannot convert interior node to leaf"@))
            } else {
                Ok(leaf_of(node, c.fs.sb.csum_type))
            }
        } else if node.level == 0 {
            Err(Fault::CorruptFs("cannot convert leaf to interior node"@))
        } else if node.ptrs.len() == 0 {
            Err(Fault::CorruptFs("btrfs node has no items"@))
        } else {
            leaf_for(
                c,
                node.ptrs[child_index(node.ptrs, key)].blockptr,
                (level - 1) as u8,
                key,
            )
        },
    }
}

/// What putting `draft` in the place of the leaf in which `key` belongs, below
/// the node at `bytenr`, comes to.
#[verifier::opaque]
pub open spec fn mutated_below(
    c: Cow,
    space: Seq<BgV>,
    bytenr: u64,
    level: u8,
    key: Key,
    draft: Outcome<LeafV>,
    is_root: bool,
) -> Outcome<EditedV>
    decreases level,
{
    match node_at(c.fs, c.pending, bytenr) {
        Err(e) => Err(e),
        Ok(node) => if level == 0 {
            if node.level != 0 {
                Err(Fault::CorruptFs("cannot convert interior node to leaf"@))
            } else {
                match draft {
                    Err(e) => Err(e),
                    Ok(h) => leaf_edited(
                        c,
                        space,
                        h,
                        h.items,
                        reusable(c, node, bytenr),
                        bytenr,
                        key,
                        is_root,
                    ),
                }
            }
        } else if node.level == 0 {
            Err(Fault::CorruptFs("cannot convert leaf to interior node"@))
        } else if node.ptrs.len() == 0 {
            Err(Fault::CorruptFs("btrfs node has no items"@))
        } else {
            let i = child_index(node.ptrs, key);
            match mutated_below(
                c,
                space,
                node.ptrs[i].blockptr,
                (level - 1) as u8,
                key,
                draft,
                false,
            ) {
                Err(e) => Err(e),
                Ok(child) => interior_edited(
                    c,
                    node,
                    child_edited(
                        interior_of(node, c.fs.sb.csum_type).entries,
                        i,
                        child.node,
                        c.generation,
                    ),
                    child,
                    level,
                    reusable(c, node, bytenr),
                    bytenr,
                    key,
                    is_root,
                ),
            }
        },
    }
}

/// A tree whose root was edited.
pub open spec fn tree_of_edit(d: Outcome<EditedV>) -> Outcome<CowV> {
    match d {
        Err(e) => Err(e),
        Ok(d) => match d.node {
            None => Err(
                Fault::CorruptFs(
                    "btrfs CoW removed the tree root; a root has no parent to be removed from"@,
                ),
            ),
            Some((b, _, l)) => Ok(
                CowV {
                    root: b,
                    level: l,
                    emitted: d.emitted,
                    allocated: d.allocated,
                    freed: d.freed,
                    space: d.space,
                },
            ),
        },
    }
}

/// What putting `draft` in the place of the leaf in which `key` belongs, in the
/// tree at `root`, comes to.
pub open spec fn tree_mutated(
    c: Cow,
    space: Seq<BgV>,
    root: u64,
    level: u8,
    key: Key,
    draft: Outcome<LeafV>,
) -> Outcome<CowV> {
    tree_of_edit(mutated_below(c, space, root, level, key, draft, true))
}

/// What a function made of a leaf.
pub open spec fn draft_of(o: Result<Leaf>) -> Outcome<LeafV> {
    match o {
        Ok(l) => Ok(l@),
        Err(e) => Err(e@),
    }
}

/// Whether `f`, called on the leaf `l`, may return `o`.
pub open spec fn makes<F: FnOnce(Leaf) -> Result<Leaf>>(f: F, l: LeafV, o: Result<Leaf>) -> bool {
    exists|leaf: Leaf| leaf@ == l && #[trigger] call_ensures(f, (leaf,), o)
}

/// Whether `f` can be called on the leaf in which a key belongs.
pub open spec fn takes<F: FnOnce(Leaf) -> Result<Leaf>>(f: F, l: Outcome<LeafV>) -> bool {
    forall|leaf: Leaf| l == Ok::<LeafV, Fault>(leaf@) ==> #[trigger] call_requires(f, (leaf,))
}

/// Whether a change by `f` of the leaf `l` may end in `r`: where there is no
/// such leaf, in the reason for that; else `f` is called on the leaf, and `want`
/// says what follows from what it returns. A change that ends before `f` has
/// returned a leaf takes nothing from the allocator.
pub open spec fn ends_by<F: FnOnce(Leaf) -> Result<Leaf>, T, V>(
    f: F,
    l: Outcome<LeafV>,
    steady: bool,
    before: Seq<BgV>,
    after: Seq<BgV>,
    r: Result<T>,
    want: spec_fn(Outcome<LeafV>) -> Outcome<V>,
    ok: spec_fn(T) -> V,
) -> bool {
    match l {
        Err(e) => r is Err && (r->Err_0@ == e || (!steady && r->Err_0@ is Io)) && after == before,
        Ok(leaf) => {
            ||| r is Err && !steady && r->Err_0@ is Io && after == before
            ||| exists|o: Result<Leaf>| #[trigger]
                makes(f, leaf, o) && agrees(steady, r, want(draft_of(o)), ok) && (o is Err ==> after
                    == before)
        },
    }
}

/// Without a leaf to put in the place there is no tree.
proof fn mutation_needs_draft(
    c: Cow,
    space: Seq<BgV>,
    bytenr: u64,
    level: u8,
    key: Key,
    draft: Outcome<LeafV>,
    is_root: bool,
)
    requires
        draft is Err,
    ensures
        mutated_below(c, space, bytenr, level, key, draft, is_root) is Err,
    decreases level,
{
    reveal(mutated_below);
    if let Ok(node) = node_at(c.fs, c.pending, bytenr) {
        if level > 0 && node.level != 0 && node.ptrs.len() > 0 {
            mutation_needs_draft(
                c,
                space,
                node.ptrs[child_index(node.ptrs, key)].blockptr,
                (level - 1) as u8,
                key,
                draft,
                false,
            );
        }
    }
}

/// An edited leaf.
pub open spec fn leaf_with(l: LeafV, key: Key, edit: EditV) -> Outcome<LeafV> {
    match edit_items(l.items, key, edit) {
        Err(e) => Err(e),
        Ok(items) => Ok(LeafV { items, ..l }),
    }
}

/// Editing the item with a key is putting the edited leaf in the place of the
/// one in which the key belongs.
proof fn edit_is_mutation(
    c: Cow,
    space: Seq<BgV>,
    bytenr: u64,
    level: u8,
    key: Key,
    edit: EditV,
    is_root: bool,
)
    ensures
        match leaf_for(c, bytenr, level, key) {
            Err(e) => edit_below(c, space, bytenr, level, key, edit, is_root) == Err::<
                EditedV,
                Fault,
            >(e),
            Ok(l) => edit_below(c, space, bytenr, level, key, edit, is_root) == mutated_below(
                c,
                space,
                bytenr,
                level,
                key,
                leaf_with(l, key, edit),
                is_root,
            ),
        },
    decreases level,
{
    reveal(edit_below);
    reveal(mutated_below);
    if let Ok(node) = node_at(c.fs, c.pending, bytenr) {
        if level > 0 && node.level != 0 && node.ptrs.len() > 0 {
            edit_is_mutation(
                c,
                space,
                node.ptrs[child_index(node.ptrs, key)].blockptr,
                (level - 1) as u8,
                key,
                edit,
                false,
            );
        }
    }
}

/// Editing the item with a key in a tree is putting the edited leaf in the place
/// of the one in which the key belongs.
pub proof fn tree_edit_is_mutation(
    c: Cow,
    space: Seq<BgV>,
    root: u64,
    level: u8,
    key: Key,
    edit: EditV,
)
    ensures
        match leaf_for(c, root, level, key) {
            Err(e) => tree_edit(c, space, root, level, key, edit) == Err::<CowV, Fault>(e),
            Ok(l) => tree_edit(c, space, root, level, key, edit) == tree_mutated(
                c,
                space,
                root,
                level,
                key,
                leaf_with(l, key, edit),
            ),
        },
{
    reveal(tree_edit);
    edit_is_mutation(c, space, root, level, key, edit, true);
}

/// Whether `items` fit in one leaf of `node_size` bytes.
fn leaf_fits(items: &Vec<LeafItem>, node_size: u32) -> (r: bool)
    ensures
        r == (leaf_used(items_of(items@)) <= node_size),
{
    used_bytes(items) <= node_size as u64
}

/// The views of groups of items.
pub open spec fn groups_of(s: Seq<Vec<LeafItem>>) -> Seq<Seq<Item>> {
    s.map_values(|g: Vec<LeafItem>| items_of(g@))
}

fn keep(groups: &mut Vec<Vec<LeafItem>>, g: Vec<LeafItem>)
    ensures
        groups_of(final(groups)@) == groups_of(old(groups)@) + kept(items_of(g@)),
{
    let ghost before = groups@;
    let ghost v = items_of(g@);
    if g.len() > 0 {
        groups.push(g);
        assert(groups_of(groups@) =~= groups_of(before).push(v));
    }
    assert(groups_of(groups@) =~= groups_of(before) + kept(v));
}

/// Decide how to lay a new item into a leaf that has no room for it.
///
/// A midpoint split would fail for large items, since each half still holds
/// about half a node; splitting at the insertion slot always works for an item
/// that fits an empty leaf.
pub fn plan_leaf_split(items: &Vec<LeafItem>, pos: usize, new_item: LeafItem, node_size: u32) -> (r:
    Vec<Vec<LeafItem>>)
    requires
        pos <= items@.len(),
    ensures
        groups_of(r@) == split_plan(items_of(items@), pos as int, new_item@, node_size),
{
    let ghost all = items_of(items@);
    let n: usize = items.len();
    let mut groups: Vec<Vec<LeafItem>> = Vec::new();
    assert(groups_of(groups@) =~= Seq::<Seq<Item>>::empty());
    let mut one = copy_items(items, 0, pos);
    let ghost left = items_of(one@);
    assert(left =~= all.take(pos as int));
    one.push(new_item.clone());
    assert(items_of(one@) =~= left.push(new_item@));
    if leaf_fits(&one, node_size) {
        let right = copy_items(items, pos, n);
        assert(items_of(right@) =~= all.skip(pos as int));
        keep(&mut groups, one);
        keep(&mut groups, right);
        assert(groups_of(groups@) =~= split_plan(all, pos as int, new_item@, node_size));
        return groups;
    }
    let mut two: Vec<LeafItem> = Vec::new();
    two.push(new_item.clone());
    let ghost head = two@;
    assert(items_of(two@) =~= seq![new_item@]);
    let mut tail = copy_items(items, pos, n);
    let ghost right = items_of(tail@);
    assert(right =~= all.skip(pos as int));
    let ghost tail_items = tail@;
    two.append(&mut tail);
    assert(items_of(two@) =~= items_of(head) + items_of(tail_items));
    if leaf_fits(&two, node_size) {
        let first = copy_items(items, 0, pos);
        assert(items_of(first@) =~= left);
        keep(&mut groups, first);
        keep(&mut groups, two);
        assert(groups_of(groups@) =~= split_plan(all, pos as int, new_item@, node_size));
        return groups;
    }
    let first = copy_items(items, 0, pos);
    assert(items_of(first@) =~= left);
    let last = copy_items(items, pos, n);
    assert(items_of(last@) =~= right);
    let mut alone: Vec<LeafItem> = Vec::new();
    alone.push(new_item);
    assert(items_of(alone@) =~= seq![new_item@]);
    keep(&mut groups, first);
    keep(&mut groups, alone);
    keep(&mut groups, last);
    assert(groups_of(groups@) =~= split_plan(all, pos as int, new_item@, node_size));
    groups
}

/// A split yields only groups that are not empty, and together they are the old
/// items with the new one in its place.
pub proof fn split_plan_covers(items: Seq<Item>, pos: int, it: Item, node_size: u32)
    requires
        0 <= pos <= items.len(),
    ensures
        split_plan(items, pos, it, node_size).len() > 0,
        forall|g: int|
            0 <= g < split_plan(items, pos, it, node_size).len() ==> (#[trigger] split_plan(
                items,
                pos,
                it,
                node_size,
            )[g]).len() > 0,
        split_plan(items, pos, it, node_size).flatten() == items.insert(pos, it),
{
    let left = items.take(pos);
    let right = items.skip(pos);
    let plan = split_plan(items, pos, it, node_size);
    if leaf_used(left.push(it)) <= node_size {
        flatten_kept(left.push(it), right, Seq::empty());
    } else if leaf_used(seq![it] + right) <= node_size {
        flatten_kept(left, seq![it] + right, Seq::empty());
    } else {
        flatten_kept(left, seq![it], right);
    }
    assert(plan.flatten() =~= items.insert(pos, it));
}

proof fn flatten_kept(a: Seq<Item>, b: Seq<Item>, c: Seq<Item>)
    ensures
        (kept(a) + kept(b) + kept(c)).flatten() == a + b + c,
        (kept(a) + kept(b)).flatten() == a + b,
{
    reveal_with_fuel(Seq::<_>::flatten, 5);
    let x = kept(a) + kept(b) + kept(c);
    let y = kept(a) + kept(b);
    flatten_kept_one(a, kept(b) + kept(c));
    flatten_kept_one(b, kept(c));
    flatten_kept_one(c, Seq::empty());
    flatten_kept_one(b, Seq::empty());
    flatten_kept_one(a, kept(b));
    assert(x =~= kept(a) + (kept(b) + kept(c)));
    assert(kept(c) =~= kept(c) + Seq::<Seq<Item>>::empty());
    assert(kept(b) =~= kept(b) + Seq::<Seq<Item>>::empty());
    assert(Seq::<Seq<Item>>::empty().flatten() =~= Seq::<Item>::empty());
    assert(x.flatten() =~= a + b + c);
    assert(y.flatten() =~= a + b);
}

proof fn flatten_kept_one(a: Seq<Item>, rest: Seq<Seq<Item>>)
    ensures
        (kept(a) + rest).flatten() == a + rest.flatten(),
{
    if a.len() == 0 {
        assert(kept(a) + rest =~= rest);
        assert(a + rest.flatten() =~= rest.flatten());
    } else {
        let s = kept(a) + rest;
        assert(s.drop_first() =~= rest);
        assert(s.first() == a);
    }
}

/// Take the block that a node of `level` is written to.
fn claim(
    allocator: &mut FreeSpaceMap,
    node_size: u32,
    owner: u64,
    level: u8,
    reuse: Option<u64>,
    replaces: Option<u64>,
    allocated: &mut Vec<(u64, u8)>,
    freed: &mut Vec<(u64, u8)>,
    Ghost(c): Ghost<Cow>,
) -> (r: Result<u64>)
    requires
        c.fs.sb.node_size == node_size,
        c.owner == owner,
    ensures
        match r {
            Ok(b) => match spot(c, old(allocator)@, level, reuse, replaces) {
                Some(s) => {
                    &&& b == s.target
                    &&& final(allocator)@ == s.space
                    &&& final(allocated)@ == old(allocated)@ + s.allocated
                    &&& final(freed)@ == old(freed)@ + s.freed
                },
                None => false,
            },
            Err(e) => {
                &&& spot(c, old(allocator)@, level, reuse, replaces) is None
                &&& e@ == Fault::FilesystemFull
                &&& final(allocator)@ == old(allocator)@
            },
        },
        draws(old(allocator)@, final(allocator)@, node_size, owner),
{
    proof {
        draws_none(allocator@, node_size, owner);
        if alloc_meta(allocator@, node_size, owner) is Some {
            draws_one(allocator@, node_size, owner);
        }
    }
    match reuse {
        Some(b) => {
            assert(allocated@ =~= old(allocated)@ + Seq::<(u64, u8)>::empty());
            assert(freed@ =~= old(freed)@ + Seq::<(u64, u8)>::empty());
            Ok(b)
        },
        None => {
            let b: u64 = allocator.allocate_metadata_for_owner(node_size, owner)?;
            allocated.push((b, level));
            assert(allocated@ =~= old(allocated)@ + seq![(b, level)]);
            match replaces {
                Some(o) => {
                    freed.push((o, level));
                    assert(freed@ =~= old(freed)@ + seq![(o, level)]);
                },
                None => {
                    assert(freed@ =~= old(freed)@ + Seq::<(u64, u8)>::empty());
                },
            }
            Ok(b)
        },
    }
}

/// What an insert below a node comes to.
struct Insertion {
    heads: Vec<(Key, u64)>,
    emitted: Vec<(u64, Vec<u8>)>,
    allocated: Vec<(u64, u8)>,
    freed: Vec<(u64, u8)>,
}

spec fn insertion_of(x: Insertion, space: Seq<BgV>) -> InsertV {
    InsertV {
        heads: x.heads@,
        emitted: pairs_of(x.emitted@),
        allocated: x.allocated@,
        freed: x.freed@,
        space,
    }
}

/// `r` is what the model says, or the device failed.
pub open spec fn agrees<T, V>(steady: bool, r: Result<T>, want: Outcome<V>, ok: spec_fn(T) -> V) -> bool {
    match r {
        Ok(v) => want == Ok::<V, Fault>(ok(v)),
        Err(e) => want == Err::<V, Fault>(e@) || (!steady && e@ is Io),
    }
}

fn push_emitted(v: &mut Vec<(u64, Vec<u8>)>, b: u64, raw: Vec<u8>)
    ensures
        pairs_of(final(v)@) == pairs_of(old(v)@).push((b, raw@)),
{
    let ghost before = v@;
    let ghost data = raw@;
    v.push((b, raw));
    assert(pairs_of(v@) =~= pairs_of(before).push((b, data)));
}

fn place_groups(
    allocator: &mut FreeSpaceMap,
    node_size: u32,
    owner: u64,
    generation: u64,
    h: &Leaf,
    groups: Vec<Vec<LeafItem>>,
    reuse: Option<u64>,
    bytenr: u64,
    Ghost(c): Ghost<Cow>,
) -> (r: Result<Insertion>)
    requires
        c.fs.sb.node_size == node_size,
        c.owner == owner,
        c.generation == generation,
        groups@.len() > 0,
        forall|g: int| 0 <= g < groups@.len() ==> (#[trigger] groups_of(groups@)[g]).len() > 0,
    ensures
        match r {
            Ok(x) => place(
                c,
                old(allocator)@,
                h@,
                groups_of(groups@),
                reuse,
                bytenr,
            ) == Ok::<InsertV, Fault>(insertion_of(x, final(allocator)@)) && x.heads@.len() > 0,
            Err(e) => place(c, old(allocator)@, h@, groups_of(groups@), reuse, bytenr) == Err::<
                InsertV,
                Fault,
            >(e@),
        },
        draws(old(allocator)@, final(allocator)@, node_size, owner),
{
    proof {
        draws_none(allocator@, node_size, owner);
    }
    let ghost all = groups_of(groups@);
    let n: usize = groups.len();
    let mut x = Insertion {
        heads: Vec::new(),
        emitted: Vec::new(),
        allocated: Vec::new(),
        freed: Vec::new(),
    };
    let mut i: usize = 0;
    assert(all.take(0) =~= Seq::<Seq<Item>>::empty());
    assert(pairs_of(x.emitted@) =~= Seq::<(u64, Seq<u8>)>::empty());
    while i < n
        invariant
            i <= n,
            n == groups@.len(),
            all == groups_of(groups@),
            c.fs.sb.node_size == node_size,
            c.owner == owner,
            c.generation == generation,
            forall|g: int| 0 <= g < groups@.len() ==> (#[trigger] groups_of(groups@)[g]).len() > 0,
            x.heads@.len() == i,
            place(c, old(allocator)@, h@, all.take(i as int), reuse, bytenr) == Ok::<
                InsertV,
                Fault,
            >(insertion_of(x, allocator@)),
            draws(old(allocator)@, allocator@, node_size, owner),
        decreases n - i,
    {
        proof {
            assert(all.take(i + 1).drop_last() =~= all.take(i as int));
            assert(all.take(i + 1).last() == items_of(groups@[i as int]@));
            assert(groups_of(groups@)[i as int] == items_of(groups@[i as int]@));
        }
        let ghost before = x;
        let ghost space = allocator@;
        let r = claim(
            allocator,
            node_size,
            owner,
            0,
            if i == 0 {
                reuse
            } else {
                None
            },
            if i == 0 {
                Some(bytenr)
            } else {
                None
            },
            &mut x.allocated,
            &mut x.freed,
            Ghost(c),
        );
        proof {
            draws_on(old(allocator)@, space, allocator@, node_size, owner);
        }
        let target: u64 = match r {
            Ok(b) => b,
            Err(e) => {
                proof {
                    place_err(c, old(allocator)@, h@, all, reuse, bytenr, i + 1, e@);
                }
                return Err(e);
            },
        };
        let leaf = Leaf {
            bytenr: target,
            generation,
            owner,
            flags: h.flags,
            metadata_uuid: h.metadata_uuid,
            chunk_tree_uuid: h.chunk_tree_uuid,
            csum_type: h.csum_type,
            items: copy_items(&groups[i], 0, groups[i].len()),
        };
        assert(leaf@.items =~= items_of(groups@[i as int]@));
        let raw = match leaf.emit(node_size) {
            Ok(raw) => raw,
            Err(e) => {
                proof {
                    place_err(c, old(allocator)@, h@, all, reuse, bytenr, i + 1, e@);
                }
                return Err(e);
            },
        };
        push_emitted(&mut x.emitted, target, raw);
        x.heads.push((groups[i][0].key, target));
        assert(items_of(groups@[i as int]@)[0] == groups@[i as int]@[0]@);
        i += 1;
    }
    assert(all.take(n as int) =~= all);
    Ok(x)
}

proof fn place_err(
    c: Cow,
    space: Seq<BgV>,
    h: LeafV,
    groups: Seq<Seq<Item>>,
    reuse: Option<u64>,
    bytenr: u64,
    i: int,
    e: Fault,
)
    requires
        0 <= i <= groups.len(),
        place(c, space, h, groups.take(i), reuse, bytenr) == Err::<InsertV, Fault>(e),
    ensures
        place(c, space, h, groups, reuse, bytenr) == Err::<InsertV, Fault>(e),
    decreases groups.len() - i,
{
    if i == groups.len() {
        assert(groups.take(i) =~= groups);
    } else {
        assert(groups.take(i + 1).drop_last() =~= groups.take(i));
        place_err(c, space, h, groups, reuse, bytenr, i + 1, e);
    }
}

/// The leaf that an insert starts from.
fn base_leaf_of(node: &Node, csum_type: crate::fs::btrfs::tree::CsumType, Ghost(c): Ghost<Cow>) -> (r:
    Leaf)
    requires
        c.fs.sb.csum_type == csum_type,
    ensures
        r@ == base_leaf(c, node@),
{
    let items = if node.is_leaf() {
        copy_items(&node.items, 0, node.items.len())
    } else {
        Vec::new()
    };
    let r = Leaf {
        bytenr: node.bytenr,
        generation: node.generation,
        owner: node.owner,
        flags: if node.is_leaf() {
            node.flags
        } else {
            1
        },
        metadata_uuid: node.metadata_uuid,
        chunk_tree_uuid: node.chunk_tree_uuid,
        csum_type,
        items,
    };
    assert(r@.items =~= base_leaf(c, node@).items);
    r
}

fn group_items_of(h: &Leaf, key: &Key, data: Vec<u8>, node_size: u32) -> (r: Result<
    Vec<Vec<LeafItem>>,
>)
    ensures
        match r {
            Ok(g) => {
                &&& leaf_groups(h@.items, Item { key: *key, data: data@ }, node_size) == Ok::<
                    Seq<Seq<Item>>,
                    Fault,
                >(groups_of(g@))
                &&& g@.len() > 0
                &&& forall|i: int| 0 <= i < g@.len() ==> (#[trigger] groups_of(g@)[i]).len() > 0
            },
            Err(e) => leaf_groups(h@.items, Item { key: *key, data: data@ }, node_size) == Err::<
                Seq<Seq<Item>>,
                Fault,
            >(e@),
        },
{
    let ghost it = Item { key: *key, data: data@ };
    let ghost items = h@.items;
    proof {
        data_sum_bound(items);
        slot_bounds(items, *key);
    }
    let free: usize = h.free_space(node_size);
    if free >= 25 && data.len() <= free - 25 {
        let mut leaf = Leaf {
            bytenr: h.bytenr,
            generation: h.generation,
            owner: h.owner,
            flags: h.flags,
            metadata_uuid: h.metadata_uuid,
            chunk_tree_uuid: h.chunk_tree_uuid,
            csum_type: h.csum_type,
            items: copy_items(&h.items, 0, h.items.len()),
        };
        assert(leaf@.items =~= items);
        leaf.insert_item(*key, data, node_size)?;
        let mut g: Vec<Vec<LeafItem>> = Vec::new();
        let ghost out = leaf@.items;
        g.push(leaf.items);
        assert(groups_of(g@) =~= seq![out]);
        return Ok(g);
    }
    if data.len() > max_item_payload_bytes(node_size) {
        return Err(
            LuksError::BtrfsItemTooLarge {
                what: item_type_name(key.item_type),
                item_bytes: data.len(),
                node_size,
            },
        );
    }
    let pos: usize = find_slot(&h.items, key);
    if pos < h.items.len() {
        assert(items[pos as int] == h.items@[pos as int]@);
        if h.items[pos].key == *key {
            return Err(LuksError::AlreadyExists(text("duplicate key in leaf")));
        }
    }
    proof {
        split_plan_covers(items, pos as int, it, node_size);
    }
    let r = plan_leaf_split(&h.items, pos, LeafItem { key: *key, data }, node_size);
    assert(groups_of(r@).len() == r@.len());
    Ok(r)
}

/// Replace entry `i` by `heads`.
fn grow_entries(entries: &mut Vec<InteriorEntry>, i: usize, heads: &Vec<(Key, u64)>, generation: u64)
    requires
        i < old(entries)@.len(),
        heads@.len() > 0,
    ensures
        final(entries)@ == grown(old(entries)@, i as int, heads@, generation),
        final(entries)@.len() > 0,
{
    let n: usize = heads.len();
    entries.set(i, InteriorEntry { key: heads[0].0, blockptr: heads[0].1, generation });
    let ghost own = entries@;
    assert(own =~= old(entries)@.update(i as int, entries_for(heads@, generation)[0]));
    if n > 1 {
        let mut k: usize = 1;
        assert(entries@ =~= own + entries_for(heads@.subrange(1, 1), generation));
        while k < n
            invariant
                1 <= k <= n,
                n == heads@.len(),
                entries@ == own + entries_for(heads@.subrange(1, k as int), generation),
            decreases n - k,
        {
            entries.push(InteriorEntry { key: heads[k].0, blockptr: heads[k].1, generation });
            k += 1;
            assert(entries@ =~= own + entries_for(heads@.subrange(1, k as int), generation));
        }
        assert(heads@.subrange(1, n as int) =~= heads@.skip(1));
        proof {
            stable_sort_sorts(entries@);
        }
        sort_ranked(entries);
    }
}

fn emit_node(
    n: &mut InteriorNode,
    target: u64,
    owner: u64,
    generation: u64,
    node_size: u32,
    Ghost(c): Ghost<Cow>,
    Ghost(h): Ghost<InteriorV>,
) -> (r: Result<Vec<u8>>)
    requires
        c.fs.sb.node_size == node_size,
        c.owner == owner,
        c.generation == generation,
        (InteriorV {
            bytenr: target,
            generation,
            owner,
            entries: old(n)@.entries,
            ..h
        }) == (InteriorV { bytenr: target, generation, owner, ..old(n)@ }),
    ensures
        final(n)@.entries == old(n)@.entries,
        match r {
            Ok(raw) => write_interior(c, h, target, old(n)@.entries) == Ok::<Seq<u8>, Fault>(raw@),
            Err(e) => write_interior(c, h, target, old(n)@.entries) == Err::<Seq<u8>, Fault>(e@),
        },
{
    n.bytenr = target;
    n.generation = generation;
    n.owner = owner;
    n.emit(node_size)
}

fn regrow_node(
    allocator: &mut FreeSpaceMap,
    node_size: u32,
    owner: u64,
    generation: u64,
    node: InteriorNode,
    i: usize,
    child: Insertion,
    level: u8,
    reuse: Option<u64>,
    bytenr: u64,
    Ghost(c): Ghost<Cow>,
    Ghost(cv): Ghost<InsertV>,
) -> (r: Result<Insertion>)
    requires
        c.fs.sb.node_size == node_size,
        c.owner == owner,
        c.generation == generation,
        i < node@.entries.len(),
        child.heads@.len() > 0,
        cv == insertion_of(child, old(allocator)@),
    ensures
        match r {
            Ok(x) => regrow(c, node@, i as int, cv, level, reuse, bytenr) == Ok::<InsertV, Fault>(
                insertion_of(x, final(allocator)@),
            ) && x.heads@.len() > 0,
            Err(e) => regrow(c, node@, i as int, cv, level, reuse, bytenr) == Err::<
                InsertV,
                Fault,
            >(e@),
        },
        draws(old(allocator)@, final(allocator)@, node_size, owner),
{
    let ghost h = node@;
    let mut n = node;
    let mut x = child;
    let many: bool = x.heads.len() > 1;
    grow_entries(&mut n.entries, i, &x.heads, generation);
    let ghost entries = n@.entries;
    if !many || n.fits(node_size) {
        let target: u64 = claim(
            allocator,
            node_size,
            owner,
            level,
            reuse,
            Some(bytenr),
            &mut x.allocated,
            &mut x.freed,
            Ghost(c),
        )?;
        let raw = emit_node(&mut n, target, owner, generation, node_size, Ghost(c), Ghost(h))?;
        push_emitted(&mut x.emitted, target, raw);
        let mut heads: Vec<(Key, u64)> = Vec::new();
        heads.push((n.entries[0].key, target));
        assert(heads@ =~= seq![(entries[0].key, target)]);
        x.heads = heads;
        return Ok(x);
    }
    let right_target: u64 = claim(
        allocator,
        node_size,
        owner,
        level,
        None,
        None,
        &mut x.allocated,
        &mut x.freed,
        Ghost(c),
    )?;
    assert(x.freed@ =~= cv.freed);
    let (mut left, mut right, pivot) = n.split(right_target)?;
    let ghost space = allocator@;
    let left_target: u64 = claim(
        allocator,
        node_size,
        owner,
        level,
        reuse,
        Some(bytenr),
        &mut x.allocated,
        &mut x.freed,
        Ghost(c),
    )?;
    proof {
        draws_on(old(allocator)@, space, allocator@, node_size, owner);
    }
    let lraw = emit_node(
        &mut left,
        left_target,
        owner,
        generation,
        node_size,
        Ghost(c),
        Ghost(h),
    )?;
    let rraw = emit_node(
        &mut right,
        right_target,
        owner,
        generation,
        node_size,
        Ghost(c),
        Ghost(h),
    )?;
    push_emitted(&mut x.emitted, left_target, lraw);
    push_emitted(&mut x.emitted, right_target, rraw);
    let mut heads: Vec<(Key, u64)> = Vec::new();
    heads.push((left.entries[0].key, left_target));
    heads.push((pivot, right_target));
    proof {
        let mid = entries.len() as int / 2;
        assert(heads@ =~= seq![(entries[0].key, left_target), (entries[mid].key, right_target)]);
    }
    x.heads = heads;
    Ok(x)
}

fn cow_descend_insert<D: ReadAt>(
    fs: &Btrfs<D>,
    pending: &BlockMap,
    bytenr: u64,
    level: u8,
    owner: u64,
    key: &Key,
    data: Vec<u8>,
    generation: u64,
    allocator: &mut FreeSpaceMap,
) -> (r: Result<Insertion>)
    ensures
        ({
            let c = Cow { fs: fs@, pending: pending@, owner, generation };
            let want = insert_below(
                c,
                old(allocator)@,
                bytenr,
                level,
                Item { key: *key, data: data@ },
            );
            &&& agrees(
                fs.steady(),
                r,
                want,
                |x: Insertion| insertion_of(x, final(allocator)@),
            )
            &&& r matches Ok(x) ==> x.heads@.len() > 0
        }),
        draws(old(allocator)@, final(allocator)@, fs@.sb.node_size, owner),
    decreases level,
{
    proof {
        draws_none(allocator@, fs@.sb.node_size, owner);
    }
    reveal(insert_below);
    let ghost c = Cow { fs: fs@, pending: pending@, owner, generation };
    let ghost it = Item { key: *key, data: data@ };
    let node_size: u32 = fs.superblock().node_size;
    let csum_type = fs.superblock().csum_type;
    let node = read_node(fs, pending, bytenr)?;
    let reuse: Option<u64> = if node.generation == generation && pending.contains_key(bytenr) {
        Some(bytenr)
    } else {
        None
    };
    if level == 0 || node.nr_items() == 0 {
        let h = base_leaf_of(&node, csum_type, Ghost(c));
        let groups = group_items_of(&h, key, data, node_size)?;
        return place_groups(
            allocator,
            node_size,
            owner,
            generation,
            &h,
            groups,
            reuse,
            bytenr,
            Ghost(c),
        );
    }
    let interior = InteriorNode::from_node(&node, csum_type)?;
    proof {
        child_index_range(node@.ptrs, *key);
    }
    let i: usize = node.child_for(key)?;
    let below: u64 = node.ptrs[i].blockptr;
    let child = cow_descend_insert(
        fs,
        pending,
        below,
        level - 1,
        owner,
        key,
        data,
        generation,
        allocator,
    )?;
    let ghost cv = insertion_of(child, allocator@);
    let ghost space = allocator@;
    let grown = regrow_node(
        allocator,
        node_size,
        owner,
        generation,
        interior,
        i,
        child,
        level,
        reuse,
        bytenr,
        Ghost(c),
        Ghost(cv),
    );
    proof {
        draws_on(old(allocator)@, space, allocator@, node_size, owner);
    }
    grown
}

/// Insert the item `(key, data)` into the tree at `root_bytenr`.
///
/// A full leaf is split and the new lowest keys go into its parent; a split
/// root makes the tree one level higher. Where an insert fails, the blocks that
/// were taken for it stay taken.
pub fn cow_tree_insert<D: ReadAt>(
    fs: &Btrfs<D>,
    pending: &BlockMap,
    root_bytenr: u64,
    root_level: u8,
    owner: u64,
    key: Key,
    data: Vec<u8>,
    generation: u64,
    allocator: &mut FreeSpaceMap,
) -> (r: Result<CowResult>)
    ensures
        agrees(
            fs.steady(),
            r,
            tree_insert(
                Cow { fs: fs@, pending: pending@, owner, generation },
                old(allocator)@,
                root_bytenr,
                root_level,
                Item { key, data: data@ },
            ),
            |x: CowResult| cow_of(x, final(allocator)@),
        ),
        draws(old(allocator)@, final(allocator)@, fs@.sb.node_size, owner),
{
    reveal(tree_insert);
    let ghost c = Cow { fs: fs@, pending: pending@, owner, generation };
    let mut x = cow_descend_insert(
        fs,
        pending,
        root_bytenr,
        root_level,
        owner,
        &key,
        data,
        generation,
        allocator,
    )?;
    let ghost d = insertion_of(x, allocator@);
    let ghost space = allocator@;
    let node = read_node(fs, pending, root_bytenr)?;
    let n: usize = x.heads.len();
    if n > 1 {
        let sb = fs.superblock();
        let level: u8 = if node.nr_items() == 0 {
            1
        } else {
            root_level.saturating_add(1)
        };
        let target: u64 = claim(
            allocator,
            sb.node_size,
            owner,
            level,
            None,
            None,
            &mut x.allocated,
            &mut x.freed,
            Ghost(c),
        )?;
        proof {
            draws_on(old(allocator)@, space, allocator@, sb.node_size, owner);
        }
        assert(x.freed@ =~= d.freed);
        let mut entries: Vec<InteriorEntry> = Vec::new();
        let mut k: usize = 0;
        while k < n
            invariant
                k <= n,
                n == x.heads@.len(),
                entries@ == entries_for(x.heads@.take(k as int), generation),
            decreases n - k,
        {
            entries.push(
                InteriorEntry { key: x.heads[k].0, blockptr: x.heads[k].1, generation },
            );
            k += 1;
            assert(entries@ =~= entries_for(x.heads@.take(k as int), generation));
        }
        assert(x.heads@.take(n as int) =~= x.heads@);
        let root = InteriorNode {
            bytenr: target,
            generation,
            owner,
            level,
            flags: node.flags,
            metadata_uuid: sb.metadata_uuid,
            chunk_tree_uuid: node.chunk_tree_uuid,
            csum_type: sb.csum_type,
            entries,
        };
        let raw = root.emit(sb.node_size)?;
        push_emitted(&mut x.emitted, target, raw);
        Ok(
            CowResult {
                new_root_bytenr: target,
                new_root_level: level,
                emitted_blocks: x.emitted,
                allocated: x.allocated,
                freed: x.freed,
            },
        )
    } else {
        let level: u8 = if node.nr_items() == 0 {
            0
        } else {
            root_level
        };
        Ok(
            CowResult {
                new_root_bytenr: x.heads[0].1,
                new_root_level: level,
                emitted_blocks: x.emitted,
                allocated: x.allocated,
                freed: x.freed,
            },
        )
    }
}

/// What an edit below a node comes to.
struct Edited {
    node: Option<(u64, Key, u8)>,
    emitted: Vec<(u64, Vec<u8>)>,
    allocated: Vec<(u64, u8)>,
    freed: Vec<(u64, u8)>,
}

spec fn edited_of(x: Edited, space: Seq<BgV>) -> EditedV {
    EditedV {
        node: x.node,
        emitted: pairs_of(x.emitted@),
        allocated: x.allocated@,
        freed: x.freed@,
        space,
    }
}

fn edit_leaf(
    allocator: &mut FreeSpaceMap,
    node_size: u32,
    owner: u64,
    generation: u64,
    leaf: Leaf,
    reuse: Option<u64>,
    bytenr: u64,
    key: &Key,
    is_root: bool,
    Ghost(c): Ghost<Cow>,
) -> (r: Result<Edited>)
    requires
        c.fs.sb.node_size == node_size,
        c.owner == owner,
        c.generation == generation,
    ensures
        match r {
            Ok(x) => leaf_edited(
                c,
                old(allocator)@,
                leaf@,
                leaf@.items,
                reuse,
                bytenr,
                *key,
                is_root,
            ) == Ok::<EditedV, Fault>(edited_of(x, final(allocator)@)),
            Err(e) => leaf_edited(
                c,
                old(allocator)@,
                leaf@,
                leaf@.items,
                reuse,
                bytenr,
                *key,
                is_root,
            ) == Err::<EditedV, Fault>(e@),
        },
        draws(old(allocator)@, final(allocator)@, node_size, owner),
{
    proof {
        draws_none(allocator@, node_size, owner);
    }
    let mut x = Edited {
        node: None,
        emitted: Vec::new(),
        allocated: Vec::new(),
        freed: Vec::new(),
    };
    assert(pairs_of(x.emitted@) =~= Seq::<(u64, Seq<u8>)>::empty());
    if leaf.items.len() == 0 && !is_root {
        x.freed.push((bytenr, 0));
        assert(x.freed@ =~= seq![(bytenr, 0u8)]);
        return Ok(x);
    }
    let target: u64 = claim(
        allocator,
        node_size,
        owner,
        0,
        reuse,
        Some(bytenr),
        &mut x.allocated,
        &mut x.freed,
        Ghost(c),
    )?;
    proof {
        let s = spot(c, old(allocator)@, 0, reuse, Some(bytenr))->Some_0;
        assert(x.allocated@ =~= s.allocated);
        assert(x.freed@ =~= s.freed);
    }
    let mut leaf = leaf;
    leaf.bytenr = target;
    leaf.generation = generation;
    leaf.owner = owner;
    let raw = leaf.emit(node_size)?;
    let ghost data = raw@;
    push_emitted(&mut x.emitted, target, raw);
    assert(pairs_of(x.emitted@) =~= seq![(target, data)]);
    let first = if leaf.items.len() == 0 {
        *key
    } else {
        assert(leaf@.items[0] == leaf.items@[0]@);
        leaf.items[0].key
    };
    x.node = Some((target, first, 0));
    Ok(x)
}

fn edit_interior(
    allocator: &mut FreeSpaceMap,
    node_size: u32,
    owner: u64,
    generation: u64,
    node: &Node,
    interior: InteriorNode,
    child: Edited,
    level: u8,
    reuse: Option<u64>,
    bytenr: u64,
    key: &Key,
    is_root: bool,
    Ghost(c): Ghost<Cow>,
    Ghost(cv): Ghost<EditedV>,
) -> (r: Result<Edited>)
    requires
        c.fs.sb.node_size == node_size,
        c.owner == owner,
        c.generation == generation,
        level > 0,
        interior@ == (InteriorV {
            entries: interior@.entries,
            ..interior_of(node@, c.fs.sb.csum_type)
        }),
        cv == edited_of(child, old(allocator)@),
    ensures
        match r {
            Ok(x) => interior_edited(
                c,
                node@,
                interior@.entries,
                cv,
                level,
                reuse,
                bytenr,
                *key,
                is_root,
            ) == Ok::<EditedV, Fault>(edited_of(x, final(allocator)@)),
            Err(e) => interior_edited(
                c,
                node@,
                interior@.entries,
                cv,
                level,
                reuse,
                bytenr,
                *key,
                is_root,
            ) == Err::<EditedV, Fault>(e@),
        },
        draws(old(allocator)@, final(allocator)@, node_size, owner),
{
    proof {
        draws_none(allocator@, node_size, owner);
        if alloc_meta(allocator@, node_size, owner) is Some {
            draws_one(allocator@, node_size, owner);
        }
    }
    let mut x = child;
    let mut n = interior;
    if n.entries.len() == 0 {
        if !is_root {
            x.node = None;
            x.freed.push((bytenr, level));
            return Ok(x);
        }
        let target: u64 = allocator.allocate_metadata_for_owner(node_size, owner)?;
        x.allocated.push((target, 0));
        x.freed.push((bytenr, level));
        let leaf = Leaf {
            bytenr: target,
            generation,
            owner,
            flags: 1,
            metadata_uuid: node.metadata_uuid,
            chunk_tree_uuid: node.chunk_tree_uuid,
            csum_type: n.csum_type,
            items: Vec::new(),
        };
        assert(leaf@.items =~= Seq::<Item>::empty());
        let raw = leaf.emit(node_size)?;
        push_emitted(&mut x.emitted, target, raw);
        x.node = Some((target, *key, 0));
        return Ok(x);
    }
    if is_root && n.entries.len() == 1 {
        x.node = Some((n.entries[0].blockptr, n.entries[0].key, level - 1));
        x.freed.push((bytenr, level));
        return Ok(x);
    }
    let target: u64 = claim(
        allocator,
        node_size,
        owner,
        level,
        reuse,
        Some(bytenr),
        &mut x.allocated,
        &mut x.freed,
        Ghost(c),
    )?;
    let raw = emit_node(
        &mut n,
        target,
        owner,
        generation,
        node_size,
        Ghost(c),
        Ghost(interior_of(node@, c.fs.sb.csum_type)),
    )?;
    push_emitted(&mut x.emitted, target, raw);
    x.node = Some((target, n.entries[0].key, level));
    Ok(x)
}

fn cow_descend<D: ReadAt, F: FnOnce(Leaf) -> Result<Leaf>>(
    fs: &Btrfs<D>,
    pending: &BlockMap,
    bytenr: u64,
    level: u8,
    owner: u64,
    key: &Key,
    generation: u64,
    allocator: &mut FreeSpaceMap,
    is_root: bool,
    mutate_fn: F,
) -> (r: Result<Edited>)
    requires
        takes(
            mutate_fn,
            leaf_for(Cow { fs: fs@, pending: pending@, owner, generation }, bytenr, level, *key),
        ),
    ensures
        ends_by(
            mutate_fn,
            leaf_for(Cow { fs: fs@, pending: pending@, owner, generation }, bytenr, level, *key),
            fs.steady(),
            old(allocator)@,
            final(allocator)@,
            r,
            |draft: Outcome<LeafV>|
                mutated_below(
                    Cow { fs: fs@, pending: pending@, owner, generation },
                    old(allocator)@,
                    bytenr,
                    level,
                    *key,
                    draft,
                    is_root,
                ),
            |x: Edited| edited_of(x, final(allocator)@),
        ),
        draws(old(allocator)@, final(allocator)@, fs@.sb.node_size, owner),
    decreases level,
{
    reveal(mutated_below);
    proof {
        draws_none(allocator@, fs@.sb.node_size, owner);
    }
    let ghost c = Cow { fs: fs@, pending: pending@, owner, generation };
    let node_size: u32 = fs.superblock().node_size;
    let csum_type = fs.superblock().csum_type;
    let node = read_node(fs, pending, bytenr)?;
    let reuse: Option<u64> = if node.generation == generation && pending.contains_key(bytenr) {
        Some(bytenr)
    } else {
        None
    };
    if level == 0 {
        let leaf = Leaf::from_node(&node, csum_type)?;
        let ghost l = leaf@;
        let made = mutate_fn(leaf);
        assert(makes(mutate_fn, l, made));
        let leaf = made?;
        return edit_leaf(
            allocator,
            node_size,
            owner,
            generation,
            leaf,
            reuse,
            bytenr,
            key,
            is_root,
            Ghost(c),
        );
    }
    let mut interior = InteriorNode::from_node(&node, csum_type)?;
    if node.ptrs.len() > 0 {
        proof {
            child_index_range(node@.ptrs, *key);
        }
    }
    let i: usize = node.child_for(key)?;
    let below: u64 = node.ptrs[i].blockptr;
    let ghost space = allocator@;
    let found = cow_descend(
        fs,
        pending,
        below,
        level - 1,
        owner,
        key,
        generation,
        allocator,
        false,
        mutate_fn,
    );
    let ghost o = choose|o: Result<Leaf>| #[trigger]
        makes(mutate_fn, leaf_for(c, below, (level - 1) as u8, *key)->Ok_0, o) && agrees(
            fs.steady(),
            found,
            mutated_below(c, space, below, (level - 1) as u8, *key, draft_of(o), false),
            |x: Edited| edited_of(x, allocator@),
        ) && (o is Err ==> allocator@ == space);
    let child = found?;
    let ghost cv = edited_of(child, allocator@);
    let ghost before = interior@.entries;
    match child.node {
        Some((b, k, _)) => {
            interior.entries.set(i, InteriorEntry { key: k, blockptr: b, generation });
        },
        None => {
            let _ = interior.entries.remove(i);
        },
    }
    assert(interior@.entries =~= child_edited(before, i as int, cv.node, generation));
    proof {
        if o is Err {
            mutation_needs_draft(c, space, below, (level - 1) as u8, *key, draft_of(o), false);
        }
    }
    let ghost mid = allocator@;
    let edited = edit_interior(
        allocator,
        node_size,
        owner,
        generation,
        &node,
        interior,
        child,
        level,
        reuse,
        bytenr,
        key,
        is_root,
        Ghost(c),
        Ghost(cv),
    );
    proof {
        draws_on(old(allocator)@, mid, allocator@, node_size, owner);
    }
    edited
}

/// Change the leaf in which `target_key` belongs, in the tree at `root_bytenr`,
/// by `mutate_fn`, which is given the leaf and returns the changed one.
///
/// A node that a change empties is dropped from its parent, up to the root; an
/// emptied tree is a single empty leaf; a root with one child gives way to it.
/// Where a change fails, the blocks that were taken for it stay taken.
pub fn cow_tree_mutate<D: ReadAt, F: FnOnce(Leaf) -> Result<Leaf>>(
    fs: &Btrfs<D>,
    pending: &BlockMap,
    root_bytenr: u64,
    root_level: u8,
    owner: u64,
    target_key: &Key,
    generation: u64,
    allocator: &mut FreeSpaceMap,
    mutate_fn: F,
) -> (r: Result<CowResult>)
    requires
        takes(
            mutate_fn,
            leaf_for(
                Cow { fs: fs@, pending: pending@, owner, generation },
                root_bytenr,
                root_level,
                *target_key,
            ),
        ),
    ensures
        ends_by(
            mutate_fn,
            leaf_for(
                Cow { fs: fs@, pending: pending@, owner, generation },
                root_bytenr,
                root_level,
                *target_key,
            ),
            fs.steady(),
            old(allocator)@,
            final(allocator)@,
            r,
            |draft: Outcome<LeafV>|
                tree_mutated(
                    Cow { fs: fs@, pending: pending@, owner, generation },
                    old(allocator)@,
                    root_bytenr,
                    root_level,
                    *target_key,
                    draft,
                ),
            |x: CowResult| cow_of(x, final(allocator)@),
        ),
        draws(old(allocator)@, final(allocator)@, fs@.sb.node_size, owner),
{
    let ghost c = Cow { fs: fs@, pending: pending@, owner, generation };
    let ghost space = allocator@;
    let found = cow_descend(
        fs,
        pending,
        root_bytenr,
        root_level,
        owner,
        target_key,
        generation,
        allocator,
        true,
        mutate_fn,
    );
    let ghost o = choose|o: Result<Leaf>| #[trigger]
        makes(mutate_fn, leaf_for(c, root_bytenr, root_level, *target_key)->Ok_0, o) && agrees(
            fs.steady(),
            found,
            mutated_below(c, space, root_bytenr, root_level, *target_key, draft_of(o), true),
            |x: Edited| edited_of(x, allocator@),
        ) && (o is Err ==> allocator@ == space);
    let x = found?;
    proof {
        if o is Err {
            mutation_needs_draft(
                c,
                space,
                root_bytenr,
                root_level,
                *target_key,
                draft_of(o),
                true,
            );
        }
    }
    match x.node {
        None => Err(
            LuksError::CorruptFs(
                "btrfs CoW removed the tree root; a root has no parent to be removed from",
            ),
        ),
        Some((b, _, l)) => Ok(
            CowResult {
                new_root_bytenr: b,
                new_root_level: l,
                emitted_blocks: x.emitted,
                allocated: x.allocated,
                freed: x.freed,
            },
        ),
    }
}

} // verus!
