//! The blocks of a change of a tree, handed out one after the other.

use vstd::prelude::*;

use crate::fs::btrfs::tree::{child_index, Item, Key, NodeV};
use crate::fs::btrfs::volume::node_at;
use crate::fs::btrfs::write::cow::{
    base_leaf, child_edited, edit_below, insert_below, interior_edited, leaf_edited, leaf_groups,
    place, regrow, reusable, spot, tree_edit, tree_insert, Cow, EditedV, InsertV,
};
use crate::fs::btrfs::write::edit::{edit_items, EditV};
use crate::fs::btrfs::write::node::{interior_of, leaf_of, InteriorEntry, InteriorV, LeafV};
use crate::fs::btrfs::write::space::{alloc_meta, BgV};

verus! {

/// What is left of the space once `blocks` were handed out, one after the other,
/// to the tree `owner`.
pub open spec fn granted(space: Seq<BgV>, size: u32, owner: u64, blocks: Seq<(u64, u8)>) -> Option<
    Seq<BgV>,
>
    decreases blocks.len(),
{
    if blocks.len() == 0 {
        Some(space)
    } else {
        match granted(space, size, owner, blocks.drop_last()) {
            None => None,
            Some(rest) => match alloc_meta(rest, size, owner) {
                None => None,
                Some((b, left)) => if b == blocks.last().0 {
                    Some(left)
                } else {
                    None
                },
            },
        }
    }
}

proof fn granted_on(
    space: Seq<BgV>,
    mid: Seq<BgV>,
    size: u32,
    owner: u64,
    x: Seq<(u64, u8)>,
    y: Seq<(u64, u8)>,
)
    requires
        granted(space, size, owner, x) == Some(mid),
    ensures
        granted(space, size, owner, x + y) == granted(mid, size, owner, y),
    decreases y.len(),
{
    if y.len() == 0 {
        assert(x + y =~= x);
    } else {
        assert((x + y).drop_last() =~= x + y.drop_last());
        granted_on(space, mid, size, owner, x, y.drop_last());
    }
}

proof fn spot_grants(
    c: Cow,
    space: Seq<BgV>,
    level: u8,
    reuse: Option<u64>,
    replaces: Option<u64>,
)
    ensures
        spot(c, space, level, reuse, replaces) matches Some(s) ==> granted(
            space,
            c.fs.sb.node_size,
            c.owner,
            s.allocated,
        ) == Some(s.space),
{
    if let Some(s) = spot(c, space, level, reuse, replaces) {
        if reuse is None {
            assert(s.allocated.drop_last() =~= Seq::<(u64, u8)>::empty());
            assert(granted(space, c.fs.sb.node_size, c.owner, s.allocated.drop_last()) == Some(
                space,
            ));
        }
    }
}

proof fn place_grants(
    c: Cow,
    space: Seq<BgV>,
    h: LeafV,
    groups: Seq<Seq<Item>>,
    reuse: Option<u64>,
    bytenr: u64,
)
    ensures
        place(c, space, h, groups, reuse, bytenr) matches Ok(d) ==> granted(
            space,
            c.fs.sb.node_size,
            c.owner,
            d.allocated,
        ) == Some(d.space),
    decreases groups.len(),
{
    if groups.len() > 0 {
        place_grants(c, space, h, groups.drop_last(), reuse, bytenr);
        if let Ok(d) = place(c, space, h, groups.drop_last(), reuse, bytenr) {
            let first = groups.len() == 1;
            let again = if first {
                reuse
            } else {
                None
            };
            let instead = if first {
                Some(bytenr)
            } else {
                None
            };
            spot_grants(c, d.space, 0, again, instead);
            if let Some(s) = spot(c, d.space, 0, again, instead) {
                granted_on(space, d.space, c.fs.sb.node_size, c.owner, d.allocated, s.allocated);
            }
        }
    }
}

proof fn regrow_grants(
    c: Cow,
    space: Seq<BgV>,
    h: InteriorV,
    i: int,
    child: InsertV,
    level: u8,
    reuse: Option<u64>,
    bytenr: u64,
)
    requires
        granted(space, c.fs.sb.node_size, c.owner, child.allocated) == Some(child.space),
    ensures
        regrow(c, h, i, child, level, reuse, bytenr) matches Ok(d) ==> granted(
            space,
            c.fs.sb.node_size,
            c.owner,
            d.allocated,
        ) == Some(d.space),
{
    let size = c.fs.sb.node_size;
    spot_grants(c, child.space, level, reuse, Some(bytenr));
    if let Some(s) = spot(c, child.space, level, reuse, Some(bytenr)) {
        granted_on(space, child.space, size, c.owner, child.allocated, s.allocated);
    }
    spot_grants(c, child.space, level, None, None);
    if let Some(r) = spot(c, child.space, level, None, None) {
        granted_on(space, child.space, size, c.owner, child.allocated, r.allocated);
        spot_grants(c, r.space, level, reuse, Some(bytenr));
        if let Some(l) = spot(c, r.space, level, reuse, Some(bytenr)) {
            granted_on(
                space,
                r.space,
                size,
                c.owner,
                child.allocated + r.allocated,
                l.allocated,
            );
        }
    }
}

proof fn insert_grants_below(c: Cow, space: Seq<BgV>, bytenr: u64, level: u8, it: Item)
    ensures
        insert_below(c, space, bytenr, level, it) matches Ok(d) ==> granted(
            space,
            c.fs.sb.node_size,
            c.owner,
            d.allocated,
        ) == Some(d.space),
    decreases level,
{
    reveal(insert_below);
    match node_at(c.fs, c.pending, bytenr) {
        Err(_) => {},
        Ok(node) => {
            let reuse = reusable(c, node, bytenr);
            if level == 0 || node.nr_items() == 0 {
                let h = base_leaf(c, node);
                if let Ok(groups) = leaf_groups(
                    h.items,
                    it,
                    c.fs.sb.node_size,
                ) {
                    place_grants(c, space, h, groups, reuse, bytenr);
                }
            } else if node.level != 0 {
                let i = child_index(node.ptrs, it.key);
                let below = (level - 1) as u8;
                insert_grants_below(c, space, node.ptrs[i].blockptr, below, it);
                if let Ok(child) = insert_below(c, space, node.ptrs[i].blockptr, below, it) {
                    regrow_grants(
                        c,
                        space,
                        interior_of(node, c.fs.sb.csum_type),
                        i,
                        child,
                        level,
                        reuse,
                        bytenr,
                    );
                }
            }
        },
    }
}

/// The blocks of an insert are handed out of the space that it starts with.
pub proof fn insert_grants(c: Cow, space: Seq<BgV>, root: u64, level: u8, it: Item)
    ensures
        tree_insert(c, space, root, level, it) matches Ok(r) ==> granted(
            space,
            c.fs.sb.node_size,
            c.owner,
            r.allocated,
        ) == Some(r.space),
{
    reveal(tree_insert);
    insert_grants_below(c, space, root, level, it);
    if let Ok(d) = insert_below(c, space, root, level, it) {
        let node = node_at(c.fs, c.pending, root)->Ok_0;
        let above = if node.nr_items() == 0 {
            1u8
        } else {
            level.saturating_add(1)
        };
        spot_grants(c, d.space, above, None, None);
        if let Some(s) = spot(c, d.space, above, None, None) {
            granted_on(space, d.space, c.fs.sb.node_size, c.owner, d.allocated, s.allocated);
        }
    }
}

proof fn leaf_edit_grants(
    c: Cow,
    space: Seq<BgV>,
    h: LeafV,
    items: Seq<Item>,
    reuse: Option<u64>,
    bytenr: u64,
    key: Key,
    is_root: bool,
)
    ensures
        leaf_edited(c, space, h, items, reuse, bytenr, key, is_root) matches Ok(d) ==> granted(
            space,
            c.fs.sb.node_size,
            c.owner,
            d.allocated,
        ) == Some(d.space),
{
    spot_grants(c, space, 0, reuse, Some(bytenr));
}

proof fn interior_edit_grants(
    c: Cow,
    space: Seq<BgV>,
    node: NodeV,
    entries: Seq<InteriorEntry>,
    child: EditedV,
    level: u8,
    reuse: Option<u64>,
    bytenr: u64,
    key: Key,
    is_root: bool,
)
    requires
        granted(space, c.fs.sb.node_size, c.owner, child.allocated) == Some(child.space),
    ensures
        interior_edited(
            c,
            node,
            entries,
            child,
            level,
            reuse,
            bytenr,
            key,
            is_root,
        ) matches Ok(d) ==> granted(space, c.fs.sb.node_size, c.owner, d.allocated) == Some(
            d.space,
        ),
{
    let size = c.fs.sb.node_size;
    spot_grants(c, child.space, level, reuse, Some(bytenr));
    if let Some(s) = spot(c, child.space, level, reuse, Some(bytenr)) {
        granted_on(space, child.space, size, c.owner, child.allocated, s.allocated);
    }
    if let Some((b, _)) = alloc_meta(child.space, size, c.owner) {
        assert(child.allocated.push((b, 0u8)).drop_last() =~= child.allocated);
    }
}

proof fn edit_grants_below(
    c: Cow,
    space: Seq<BgV>,
    bytenr: u64,
    level: u8,
    key: Key,
    edit: EditV,
    is_root: bool,
)
    ensures
        edit_below(c, space, bytenr, level, key, edit, is_root) matches Ok(d) ==> granted(
            space,
            c.fs.sb.node_size,
            c.owner,
            d.allocated,
        ) == Some(d.space),
    decreases level,
{
    reveal(edit_below);
    match node_at(c.fs, c.pending, bytenr) {
        Err(_) => {},
        Ok(node) => {
            let reuse = reusable(c, node, bytenr);
            if level == 0 {
                if let Ok(items) = edit_items(node.items, key, edit) {
                    leaf_edit_grants(
                        c,
                        space,
                        leaf_of(node, c.fs.sb.csum_type),
                        items,
                        reuse,
                        bytenr,
                        key,
                        is_root,
                    );
                }
            } else if node.level != 0 && node.ptrs.len() > 0 {
                let i = child_index(node.ptrs, key);
                let below = (level - 1) as u8;
                edit_grants_below(c, space, node.ptrs[i].blockptr, below, key, edit, false);
                if let Ok(child) = edit_below(
                    c,
                    space,
                    node.ptrs[i].blockptr,
                    below,
                    key,
                    edit,
                    false,
                ) {
                    interior_edit_grants(
                        c,
                        space,
                        node,
                        child_edited(
                            interior_of(
                                node,
                                c.fs.sb.csum_type,
                            ).entries,
                            i,
                            child.node,
                            c.generation,
                        ),
                        child,
                        level,
                        reuse,
                        bytenr,
                        key,
                        is_root,
                    );
                }
            }
        },
    }
}

/// The blocks of an edit are handed out of the space that it starts with.
pub proof fn edit_grants(c: Cow, space: Seq<BgV>, root: u64, level: u8, key: Key, edit: EditV)
    ensures
        tree_edit(c, space, root, level, key, edit) matches Ok(r) ==> granted(
            space,
            c.fs.sb.node_size,
            c.owner,
            r.allocated,
        ) == Some(r.space),
{
    reveal(tree_edit);
    edit_grants_below(c, space, root, level, key, edit, true);
}

} // verus!
