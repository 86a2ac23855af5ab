//! An edit changes one item of a tree and leaves all others alone.

use vstd::prelude::*;

use crate::error::Fault;
use crate::fs::btrfs::tree::{child_index, child_index_range, Item, Key, KeyPtr, NodeV};
use crate::fs::btrfs::volume::{node_at, FsV};
use crate::fs::btrfs::write::booking::{
    booked, booked_above, booked_more, carries, child_unoffered, emits, emits_pushed, frees,
    frees_joined, frees_one, header_of_node, interior_stands, keeps, key_in_range, keys_end,
    leaf_stands, regrown, siblings_unchanged, siblings_untouched, spot_facts, unoffered,
};
use crate::fs::btrfs::write::contents::{
    bound, child_unchanged, held_by_one, holds, in_row, in_tree, items_ascend, items_within,
    row_apart, row_ascends, row_holds, row_sound, sound, sound_interior, sound_leaf, sound_wider,
    tree_over_row,
};
use crate::fs::btrfs::write::cow::{
    child_edited, edit_below, interior_edited, leaf_edited, reusable, spot, tree_edit,
    write_interior, Cow, EditedV,
};
use crate::fs::btrfs::write::edit::{edit_items, edited, EditV};
use crate::fs::btrfs::write::handout::{offered, tidy};
use crate::fs::btrfs::write::node::{
    emit_leaf, entry_of, interior_of, leaf_of, slot, slot_bounds, InteriorEntry, LeafV,
};
use crate::fs::btrfs::write::roundtrip::leaf_node;
use crate::fs::btrfs::write::space::{alloc_meta, BgV};
use crate::fs::btrfs::write::splice::{
    entries_of_row, fits_in, node_over_row, ptrs_of_entries, spliced, spliced_at, spliced_blocks,
    spliced_holds, spliced_sound,
};

verus! {

/// Whether an edit makes `x` of the payload that the tree at `b` holds under
/// `key`.
pub open spec fn becomes(
    fs: FsV,
    p: Map<u64, Seq<u8>>,
    b: u64,
    level: u8,
    key: Key,
    e: EditV,
    x: Seq<u8>,
) -> bool {
    exists|o: Seq<u8>| #[trigger]
        holds(fs, p, b, level, key, o) && edited(o, e) == Ok::<Option<Seq<u8>>, Fault>(Some(x))
}

/// Whether the tree at `b` holds an item once the one with `key` was edited.
pub open spec fn after_edit(
    fs: FsV,
    p: Map<u64, Seq<u8>>,
    b: u64,
    level: u8,
    key: Key,
    e: EditV,
    k: Key,
    x: Seq<u8>,
) -> bool {
    if k == key {
        becomes(fs, p, b, level, key, e, x)
    } else {
        holds(fs, p, b, level, k, x)
    }
}

/// What replaces the tree at `b` once an item was edited, under the blocks `q`.
pub open spec fn reworked(
    c: Cow,
    q: Map<u64, Seq<u8>>,
    b: u64,
    level: u8,
    lo: int,
    hi: int,
    key: Key,
    e: EditV,
    space: Seq<BgV>,
    is_root: bool,
    d: EditedV,
) -> bool {
    &&& exists|o: Seq<u8>| #[trigger] holds(c.fs, c.pending, b, level, key, o)
    &&& match d.node {
        None => !is_root && forall|k: Key, x: Seq<u8>|
            !#[trigger] after_edit(c.fs, c.pending, b, level, key, e, k, x),
        Some((t, k0, l)) => {
            &&& sound(c.fs, q, t, l, k0.ord(), hi)
            &&& l <= level
            &&& !is_root ==> l == level && lo <= k0.ord() < hi
            &&& forall|k: Key, x: Seq<u8>| #[trigger]
                holds(c.fs, q, t, l, k, x) == after_edit(
                    c.fs,
                    c.pending,
                    b,
                    level,
                    key,
                    e,
                    k,
                    x,
                )
            &&& forall|a: u64| #[trigger]
                in_tree(c.fs, q, t, l, a) ==> (in_tree(c.fs, c.pending, b, level, a) || offered(
                    space,
                    a as int,
                ) > 0) && offered(d.space, a as int) == 0 && !frees(d.freed, a)
        },
    }
}

/// The items of a leaf once one was edited.
proof fn items_edited(items: Seq<Item>, key: Key, e: EditV, lo: int, hi: int)
    requires
        items_ascend(items),
        items_within(items, lo, hi),
        edit_items(items, key, e) is Ok,
    ensures
        ({
            let i = slot(items, key);
            let new = edit_items(items, key, e)->Ok_0;
            &&& 0 <= i < items.len()
            &&& items[i].key == key
            &&& items_ascend(new)
            &&& items_within(new, lo, hi)
            &&& forall|k: Key, x: Seq<u8>| #[trigger]
                new.contains(Item { key: k, data: x }) == if k == key {
                    edited(items[i].data, e) == Ok::<Option<Seq<u8>>, Fault>(Some(x))
                } else {
                    items.contains(Item { key: k, data: x })
                }
            &&& forall|o: Seq<u8>| #[trigger]
                items.contains(Item { key, data: o }) == (o == items[i].data)
        }),
{
    reveal(edit_items);
    slot_bounds(items, key);
    let i = slot(items, key);
    let new = edit_items(items, key, e)->Ok_0;
    assert forall|o: Seq<u8>| #[trigger] items.contains(Item { key, data: o }) == (o
        == items[i].data) by {
        if items.contains(Item { key, data: o }) {
            let j = choose|j: int| 0 <= j < items.len() && items[j] == (Item { key, data: o });
            if i < j {
                assert(items[i].key.ord() < items[j].key.ord());
            } else if j < i {
                assert(items[j].key.ord() < items[i].key.ord());
            }
        }
        if o == items[i].data {
            assert(items[i] == (Item { key, data: o }));
        }
    }
    match edited(items[i].data, e)->Ok_0 {
        None => {
            assert forall|j: int| 0 <= j < new.len() implies #[trigger] new[j] == if j < i {
                items[j]
            } else {
                items[j + 1]
            } by {}
            assert(items_ascend(new)) by {
                assert forall|s: int, t: int| 0 <= s < t < new.len() implies (
                #[trigger] new[s]).key.ord() < (#[trigger] new[t]).key.ord() by {}
            }
            assert forall|k: Key, x: Seq<u8>| #[trigger] new.contains(Item { key: k, data: x })
                == if k == key {
                false
            } else {
                items.contains(Item { key: k, data: x })
            } by {
                let one = Item { key: k, data: x };
                if new.contains(one) {
                    let j = choose|j: int| 0 <= j < new.len() && new[j] == one;
                    let s = if j < i {
                        j
                    } else {
                        j + 1
                    };
                    assert(items[s] == one);
                    if s < i {
                        assert(items[s].key.ord() < items[i].key.ord());
                    } else {
                        assert(items[i].key.ord() < items[s].key.ord());
                    }
                }
                if k != key && items.contains(one) {
                    let s = choose|s: int| 0 <= s < items.len() && items[s] == one;
                    if s < i {
                        assert(new[s] == one);
                    } else {
                        assert(new[s - 1] == one);
                    }
                }
            }
        },
        Some(d) => {
            let it = Item { key, data: d };
            assert forall|j: int| 0 <= j < new.len() implies #[trigger] new[j] == if j == i {
                it
            } else {
                items[j]
            } by {}
            assert(items_ascend(new)) by {
                assert forall|s: int, t: int| 0 <= s < t < new.len() implies (
                #[trigger] new[s]).key.ord() < (#[trigger] new[t]).key.ord() by {
                    assert(items[s].key.ord() < items[t].key.ord());
                }
            }
            assert(items_within(new, lo, hi)) by {
                assert forall|j: int| 0 <= j < new.len() implies lo <= (#[trigger] new[j]).key.ord()
                    < hi by {
                    assert(lo <= items[j].key.ord() < hi);
                }
            }
            assert forall|k: Key, x: Seq<u8>| #[trigger] new.contains(Item { key: k, data: x })
                == if k == key {
                x == d
            } else {
                items.contains(Item { key: k, data: x })
            } by {
                let one = Item { key: k, data: x };
                if new.contains(one) {
                    let j = choose|j: int| 0 <= j < new.len() && new[j] == one;
                    if j != i {
                        assert(items[j] == one);
                        if j < i {
                            assert(items[j].key.ord() < items[i].key.ord());
                        } else {
                            assert(items[i].key.ord() < items[j].key.ord());
                        }
                    }
                }
                if k == key && x == d {
                    assert(new[i] == one);
                }
                if k != key && items.contains(one) {
                    let s = choose|s: int| 0 <= s < items.len() && items[s] == one;
                    assert(new[s] == one);
                }
            }
        },
    }
}

/// Nothing was written and nothing given up.
proof fn booked_nothing(fs: FsV, p: Map<u64, Seq<u8>>, b: u64, level: u8, space: Seq<BgV>)
    requires
        tidy(space),
    ensures
        booked(fs, p, b, level, space, Seq::empty(), Seq::empty(), space),
        !emits(Seq::empty(), b),
        !frees(Seq::empty(), b),
{
}

/// The node itself is given up.
proof fn booked_dropped(
    fs: FsV,
    p: Map<u64, Seq<u8>>,
    b: u64,
    level: u8,
    space: Seq<BgV>,
    emitted: Seq<(u64, Seq<u8>)>,
    freed: Seq<(u64, u8)>,
    rest: Seq<BgV>,
    at: u8,
)
    requires
        booked(fs, p, b, level, space, emitted, freed, rest),
        !emits(emitted, b),
    ensures
        booked(fs, p, b, level, space, emitted, freed.push((b, at)), rest),
{
    let more = freed.push((b, at));
    assert(more =~= freed + seq![(b, at)]);
    assert(in_tree(fs, p, b, level, b));
    assert forall|a: u64| #[trigger] frees(more, a) implies in_tree(fs, p, b, level, a) && !emits(
        emitted,
        a,
    ) by {
        frees_joined(freed, seq![(b, at)], a);
        frees_one(b, at, a);
    }
}

/// The row of a node once its child `i` was edited.
pub open spec fn edited_row(row: Seq<KeyPtr>, i: int, node: Option<(u64, Key, u8)>, generation: u64) -> Seq<
    KeyPtr,
> {
    match node {
        Some((t, k, _)) => spliced(row, i, seq![KeyPtr { key: k, blockptr: t, generation }]),
        None => row.remove(i),
    }
}

proof fn edited_row_entries(
    row: Seq<KeyPtr>,
    i: int,
    node: Option<(u64, Key, u8)>,
    generation: u64,
)
    requires
        0 <= i < row.len(),
    ensures
        child_edited(entries_of_row(row), i, node, generation) == entries_of_row(
            edited_row(row, i, node, generation),
        ),
{
    reveal(spliced);
    assert(child_edited(entries_of_row(row), i, node, generation) =~= entries_of_row(
        edited_row(row, i, node, generation),
    ));
}

/// A row without its child `i`.
#[verifier::rlimit(40)]
proof fn removed_sound(
    fs: FsV,
    p: Map<u64, Seq<u8>>,
    q: Map<u64, Seq<u8>>,
    row: Seq<KeyPtr>,
    i: int,
    level: u8,
    hi: int,
)
    requires
        0 <= i < row.len(),
        row.len() > 1,
        row_sound(fs, p, row, level, hi),
        forall|j: int|
            0 <= j < row.len() && j != i ==> child_unchanged(
                fs,
                p,
                q,
                (#[trigger] row[j]).blockptr,
                level,
                row[j].key.ord(),
                bound(row, j, hi),
            ),
    ensures
        row_sound(fs, q, row.remove(i), level, hi),
        row[0].key.ord() <= row.remove(i)[0].key.ord(),
{
    let e = row.remove(i);
    assert forall|x: int| 0 <= x < e.len() implies #[trigger] e[x] == row[if x < i {
        x
    } else {
        x + 1
    }] by {}
    assert(row_ascends(e)) by {
        assert forall|x: int, y: int| 0 <= x < y < e.len() implies (#[trigger] e[x]).key.ord() < (
        #[trigger] e[y]).key.ord() by {
            let s = if x < i {
                x
            } else {
                x + 1
            };
            let t = if y < i {
                y
            } else {
                y + 1
            };
            assert(row[s].key.ord() < row[t].key.ord());
        }
    }
    assert(e.last().key.ord() < hi) by {
        if i == row.len() - 1 {
            assert(e.last() == row[row.len() - 2]);
            assert(row[row.len() - 2].key.ord() < row[row.len() - 1].key.ord());
        } else {
            assert(e.last() == row[row.len() - 1]);
        }
    }
    assert(row[0].key.ord() <= e[0].key.ord()) by {
        if i == 0 {
            assert(row[0].key.ord() < row[1].key.ord());
        }
    }
    assert forall|x: int| 0 <= x < e.len() implies sound(
        fs,
        q,
        (#[trigger] e[x]).blockptr,
        level,
        e[x].key.ord(),
        bound(e, x, hi),
    ) by {
        let s = if x < i {
            x
        } else {
            x + 1
        };
        let k = row[s].key.ord();
        let up = bound(row, s, hi);
        assert(child_unchanged(fs, p, q, row[s].blockptr, level, k, up));
        assert(sound(fs, p, row[s].blockptr, level, k, up));
        if x + 1 < e.len() {
            let t = if x + 1 < i {
                x + 1
            } else {
                x + 2
            };
            assert(e[x + 1] == row[t]);
            if t > s + 1 {
                assert(row[s + 1].key.ord() < row[t].key.ord());
            }
        } else if s + 1 < row.len() {
            if s + 1 < row.len() - 1 {
                assert(row[s + 1].key.ord() < row[row.len() - 1].key.ord());
            }
        }
        sound_wider(fs, q, row[s].blockptr, level, k, up, k, bound(e, x, hi));
    }
    assert(row_apart(fs, q, e, level)) by {
        assert forall|x: int, y: int, a: u64|
            #![trigger e[x], e[y], in_tree(fs, q, e[x].blockptr, level, a)]
            0 <= x < e.len() && 0 <= y < e.len() && x != y && in_tree(
                fs,
                q,
                e[x].blockptr,
                level,
                a,
            ) implies !in_tree(fs, q, e[y].blockptr, level, a) by {
            let s = if x < i {
                x
            } else {
                x + 1
            };
            let t = if y < i {
                y
            } else {
                y + 1
            };
            assert(row[s].blockptr == e[x].blockptr);
            assert(row[t].blockptr == e[y].blockptr);
            assert(in_tree(fs, p, row[s].blockptr, level, a));
            assert(!in_tree(fs, p, row[t].blockptr, level, a));
        }
    }
}

/// A property that one of a row without its child `i` has, one of the others
/// has.
proof fn removed_any(row: Seq<KeyPtr>, i: int, f: spec_fn(u64) -> bool, g: spec_fn(u64) -> bool)
    requires
        0 <= i < row.len(),
        forall|j: int|
            0 <= j < row.len() && j != i ==> f((#[trigger] row[j]).blockptr) == g(row[j].blockptr),
    ensures
        (exists|x: int| 0 <= x < row.remove(i).len() && g((#[trigger] row.remove(i)[x]).blockptr))
            == exists|j: int| 0 <= j < row.len() && j != i && f((#[trigger] row[j]).blockptr),
{
    let e = row.remove(i);
    if exists|x: int| 0 <= x < e.len() && g((#[trigger] e[x]).blockptr) {
        let x = choose|x: int| 0 <= x < e.len() && g((#[trigger] e[x]).blockptr);
        if x < i {
            assert(f(row[x].blockptr));
        } else {
            assert(f(row[x + 1].blockptr));
        }
    }
    if exists|j: int| 0 <= j < row.len() && j != i && f((#[trigger] row[j]).blockptr) {
        let j = choose|j: int| 0 <= j < row.len() && j != i && f((#[trigger] row[j]).blockptr);
        if j < i {
            assert(g(e[j].blockptr));
        } else {
            assert(g(e[j - 1].blockptr));
        }
    }
}

/// The leaf that edited items are written as.
pub open spec fn edited_leaf(c: Cow, n: NodeV, t: u64, items: Seq<Item>) -> LeafV {
    LeafV {
        bytenr: t,
        generation: c.generation,
        owner: c.owner,
        items,
        ..leaf_of(n, c.fs.sb.csum_type)
    }
}

/// An edited leaf is booked.
proof fn leaf_edit_booked(
    c: Cow,
    space: Seq<BgV>,
    b: u64,
    n: NodeV,
    items: Seq<Item>,
    key: Key,
    is_root: bool,
)
    requires
        c.fs.sb.node_size > 0,
        tidy(space),
        unoffered(c.fs, c.pending, b, 0, space),
        leaf_edited(
            c,
            space,
            leaf_of(n, c.fs.sb.csum_type),
            items,
            reusable(c, n, b),
            b,
            key,
            is_root,
        ) is Ok,
    ensures
        ({
            let d = leaf_edited(
                c,
                space,
                leaf_of(n, c.fs.sb.csum_type),
                items,
                reusable(c, n, b),
                b,
                key,
                is_root,
            )->Ok_0;
            booked(c.fs, c.pending, b, 0, space, d.emitted, d.freed, d.space)
        }),
{
    let h = leaf_of(n, c.fs.sb.csum_type);
    let reuse = reusable(c, n, b);
    let d = leaf_edited(c, space, h, items, reuse, b, key, is_root)->Ok_0;
    let none = Seq::<(u64, Seq<u8>)>::empty();
    booked_nothing(c.fs, c.pending, b, 0, space);
    assert(in_tree(c.fs, c.pending, b, 0, b));
    if items.len() == 0 && !is_root {
        booked_dropped(c.fs, c.pending, b, 0, space, none, Seq::empty(), space, 0);
        assert(Seq::<(u64, u8)>::empty().push((b, 0u8)) =~= seq![(b, 0u8)]);
    } else {
        let s = spot(c, space, 0, reuse, Some(b))->Some_0;
        let raw = d.emitted[0].1;
        booked_more(c, b, 0, space, none, Seq::empty(), space, 0, reuse, Some(b), raw);
        assert(none.push((s.target, raw)) =~= seq![(s.target, raw)]);
        assert(Seq::<(u64, u8)>::empty() + s.freed =~= s.freed);
    }
}

/// An edited leaf holds what the edit makes of it.
proof fn leaf_reworked(
    c: Cow,
    space: Seq<BgV>,
    b: u64,
    n: NodeV,
    lo: int,
    hi: int,
    key: Key,
    e: EditV,
    is_root: bool,
    q: Map<u64, Seq<u8>>,
    d: EditedV,
)
    requires
        c.fs.sb.node_size > 0,
        tidy(space),
        node_at(c.fs, c.pending, b) == Ok::<NodeV, Fault>(n),
        sound(c.fs, c.pending, b, 0, lo, hi),
        unoffered(c.fs, c.pending, b, 0, space),
        edit_items(n.items, key, e) is Ok,
        leaf_edited(
            c,
            space,
            leaf_of(n, c.fs.sb.csum_type),
            edit_items(n.items, key, e)->Ok_0,
            reusable(c, n, b),
            b,
            key,
            is_root,
        ) == Ok::<EditedV, Fault>(d),
        carries(q, d.emitted),
    ensures
        reworked(c, q, b, 0, lo, hi, key, e, space, is_root, d),
{
    let fs = c.fs;
    let p = c.pending;
    let items = edit_items(n.items, key, e)->Ok_0;
    let i = slot(n.items, key);
    let old = n.items[i].data;
    sound_leaf(fs, p, b, lo, hi);
    header_of_node(fs, p, b);
    items_edited(n.items, key, e, lo, hi);
    leaf_edit_booked(c, space, b, n, items, key, is_root);
    assert(n.items.contains(Item { key, data: old }));
    assert(holds(fs, p, b, 0, key, old));
    assert forall|k: Key, x: Seq<u8>| #[trigger] after_edit(fs, p, b, 0, key, e, k, x)
        == items.contains(Item { key: k, data: x }) by {
        assert(items.contains(Item { key: k, data: x }) == if k == key {
            edited(old, e) == Ok::<Option<Seq<u8>>, Fault>(Some(x))
        } else {
            n.items.contains(Item { key: k, data: x })
        });
        if k == key {
            if becomes(fs, p, b, 0, key, e, x) {
                let o = choose|o: Seq<u8>| #[trigger]
                    holds(fs, p, b, 0, key, o) && edited(o, e) == Ok::<Option<Seq<u8>>, Fault>(
                        Some(x),
                    );
                assert(n.items.contains(Item { key, data: o }));
            }
        }
    }
    match d.node {
        None => {
            assert forall|k: Key, x: Seq<u8>| !#[trigger] after_edit(
                fs,
                p,
                b,
                0,
                key,
                e,
                k,
                x,
            ) by {
                assert(!items.contains(Item { key: k, data: x }));
            }
        },
        Some((t, k0, l)) => {
            let leaf = edited_leaf(c, n, t, items);
            assert(d.emitted[0].0 == t);
            assert(q[d.emitted[0].0] == d.emitted[0].1);
            leaf_stands(c, q, leaf, d.emitted[0].1);
            assert(items_within(items, k0.ord(), hi)) by {
                assert forall|j: int| 0 <= j < items.len() implies k0.ord() <= (
                #[trigger] items[j]).key.ord() < hi by {
                    if j > 0 {
                        assert(items[0].key.ord() < items[j].key.ord());
                    }
                }
            }
            sound_leaf(fs, q, t, k0.ord(), hi);
            assert(emits(d.emitted, t)) by {
                assert(d.emitted[0].0 == t);
            }
        },
    }
}

/// What is known of a tree whose child `i` was edited, before the node above is
/// written.
pub open spec fn child_reworked(
    c: Cow,
    q: Map<u64, Seq<u8>>,
    b: u64,
    level: u8,
    lo: int,
    hi: int,
    key: Key,
    e: EditV,
    space: Seq<BgV>,
    row: Seq<KeyPtr>,
    child: EditedV,
) -> bool {
    let below = (level - 1) as u8;
    &&& row.len() > 0 ==> row_sound(c.fs, q, row, below, hi) && lo <= row[0].key.ord()
    &&& forall|k: Key, x: Seq<u8>| #[trigger]
        row_holds(c.fs, q, row, below, k, x) == after_edit(
            c.fs,
            c.pending,
            b,
            level,
            key,
            e,
            k,
            x,
        )
    &&& forall|a: u64| #[trigger]
        in_row(c.fs, q, row, below, a) ==> {
            &&& a != b
            &&& in_tree(c.fs, c.pending, b, level, a) || offered(space, a as int) > 0
            &&& offered(child.space, a as int) == 0
            &&& !frees(child.freed, a)
        }
}

/// What the tree holds after the edit: what its child holds, and what the other
/// children hold.
proof fn edit_reaches_child(
    c: Cow,
    b: u64,
    level: u8,
    n: NodeV,
    i: int,
    lo: int,
    hi: int,
    key: Key,
    e: EditV,
    k: Key,
    x: Seq<u8>,
)
    requires
        level > 0,
        node_at(c.fs, c.pending, b) == Ok::<NodeV, Fault>(n),
        sound(c.fs, c.pending, b, level, lo, hi),
        i == child_index(n.ptrs, key),
    ensures
        after_edit(c.fs, c.pending, b, level, key, e, k, x) == (after_edit(
            c.fs,
            c.pending,
            n.ptrs[i].blockptr,
            (level - 1) as u8,
            key,
            e,
            k,
            x,
        ) || exists|j: int|
            0 <= j < n.ptrs.len() && j != i && holds(
                c.fs,
                c.pending,
                (#[trigger] n.ptrs[j]).blockptr,
                (level - 1) as u8,
                k,
                x,
            )),
        forall|o: Seq<u8>| #[trigger]
            holds(c.fs, c.pending, n.ptrs[i].blockptr, (level - 1) as u8, key, o) ==> holds(
                c.fs,
                c.pending,
                b,
                level,
                key,
                o,
            ),
{
    let fs = c.fs;
    let p = c.pending;
    let below = (level - 1) as u8;
    let row = n.ptrs;
    let cb = row[i].blockptr;
    sound_interior(fs, p, b, level, lo, hi);
    child_index_range(row, key);
    tree_over_row(fs, p, b, level, n);
    assert forall|o: Seq<u8>| #[trigger] holds(fs, p, b, level, key, o) == holds(
        fs,
        p,
        cb,
        below,
        key,
        o,
    ) by {
        assert(holds(fs, p, b, level, key, o) == row_holds(fs, p, row, below, key, o));
        if row_holds(fs, p, row, below, key, o) {
            let j = choose|j: int|
                0 <= j < row.len() && holds(fs, p, (#[trigger] row[j]).blockptr, below, key, o);
            held_by_one(fs, p, row, below, hi, key, j, o);
        }
        if holds(fs, p, row[i].blockptr, below, key, o) {
            assert(row_holds(fs, p, row, below, key, o));
        }
    }
    assert forall|o: Seq<u8>| #[trigger] holds(fs, p, cb, below, key, o) implies holds(
        fs,
        p,
        b,
        level,
        key,
        o,
    ) by {
        assert(holds(fs, p, b, level, key, o) == holds(fs, p, cb, below, key, o));
    }
    assert(holds(fs, p, b, level, k, x) == row_holds(fs, p, row, below, k, x));
    if k == key {
        if becomes(fs, p, b, level, key, e, x) {
            let o = choose|o: Seq<u8>| #[trigger]
                holds(fs, p, b, level, key, o) && edited(o, e) == Ok::<Option<Seq<u8>>, Fault>(
                    Some(x),
                );
            assert(holds(fs, p, cb, below, key, o));
        }
        if becomes(fs, p, cb, below, key, e, x) {
            let o = choose|o: Seq<u8>| #[trigger]
                holds(fs, p, cb, below, key, o) && edited(o, e) == Ok::<Option<Seq<u8>>, Fault>(
                    Some(x),
                );
            assert(holds(fs, p, b, level, key, o));
        }
        if exists|j: int|
            0 <= j < row.len() && j != i && holds(
                fs,
                p,
                (#[trigger] row[j]).blockptr,
                below,
                k,
                x,
            ) {
            let j = choose|j: int|
                0 <= j < row.len() && j != i && holds(
                    fs,
                    p,
                    (#[trigger] row[j]).blockptr,
                    below,
                    k,
                    x,
                );
            held_by_one(fs, p, row, below, hi, key, j, x);
        }
    } else {
        if row_holds(fs, p, row, below, k, x) {
            let j = choose|j: int|
                0 <= j < row.len() && holds(fs, p, (#[trigger] row[j]).blockptr, below, k, x);
            assert(j == i || holds(fs, p, row[j].blockptr, below, k, x));
        }
        if holds(fs, p, row[i].blockptr, below, k, x) {
            assert(row_holds(fs, p, row, below, k, x));
        }
        if exists|j: int|
            0 <= j < row.len() && j != i && holds(
                fs,
                p,
                (#[trigger] row[j]).blockptr,
                below,
                k,
                x,
            ) {
            let j = choose|j: int|
                0 <= j < row.len() && j != i && holds(
                    fs,
                    p,
                    (#[trigger] row[j]).blockptr,
                    below,
                    k,
                    x,
                );
            assert(row_holds(fs, p, row, below, k, x));
        }
    }
}

proof fn child_is_reworked(
    c: Cow,
    q: Map<u64, Seq<u8>>,
    b: u64,
    level: u8,
    n: NodeV,
    i: int,
    lo: int,
    hi: int,
    key: Key,
    e: EditV,
    space: Seq<BgV>,
    child: EditedV,
    emitted: Seq<(u64, Seq<u8>)>,
    freed: Seq<(u64, u8)>,
)
    requires
        level > 0,
        node_at(c.fs, c.pending, b) == Ok::<NodeV, Fault>(n),
        sound(c.fs, c.pending, b, level, lo, hi),
        i == child_index(n.ptrs, key),
        unoffered(c.fs, c.pending, b, level, space),
        booked(
            c.fs,
            c.pending,
            n.ptrs[i].blockptr,
            (level - 1) as u8,
            space,
            child.emitted,
            child.freed,
            child.space,
        ),
        reworked(
            c,
            q,
            n.ptrs[i].blockptr,
            (level - 1) as u8,
            n.ptrs[i].key.ord(),
            bound(n.ptrs, i, hi),
            key,
            e,
            space,
            false,
            child,
        ),
        keeps(c.fs, c.pending, q, b, level, emitted, freed),
        forall|a: u64|
            !emits(child.emitted, a) && a != b && offered(child.space, a as int) == 0
                ==> !#[trigger] emits(emitted, a),
        forall|a: u64|
            !frees(child.freed, a) && a != b ==> !#[trigger] frees(freed, a),
    ensures
        child_reworked(
            c,
            q,
            b,
            level,
            lo,
            hi,
            key,
            e,
            space,
            edited_row(n.ptrs, i, child.node, c.generation),
            child,
        ),
        exists|o: Seq<u8>| #[trigger] holds(c.fs, c.pending, b, level, key, o),
{
    let fs = c.fs;
    let p = c.pending;
    let below = (level - 1) as u8;
    let row = n.ptrs;
    sound_interior(fs, p, b, level, lo, hi);
    child_index_range(row, key);
    tree_over_row(fs, p, b, level, n);
    assert forall|j: int| 0 <= j < row.len() && j != i implies child_unchanged(
        fs,
        p,
        q,
        (#[trigger] row[j]).blockptr,
        below,
        row[j].key.ord(),
        bound(row, j, hi),
    ) by {
        assert forall|a: u64| in_tree(fs, p, row[j].blockptr, below, a) implies !#[trigger] emits(
            emitted,
            a,
        ) && !frees(freed, a) by {
            siblings_untouched(
                fs,
                p,
                b,
                level,
                n,
                i,
                j,
                lo,
                hi,
                space,
                child.emitted,
                child.freed,
                child.space,
                a,
            );
        }
        siblings_unchanged(fs, p, q, b, level, n, i, j, lo, hi, emitted, freed);
    }
    let o = choose|o: Seq<u8>| #[trigger] holds(fs, p, row[i].blockptr, below, key, o);
    edit_reaches_child(c, b, level, n, i, lo, hi, key, e, key, o);
    assert(holds(fs, p, b, level, key, o));
    match child.node {
        Some((t, k0, l)) => {
            edited_in(c, q, b, level, n, i, lo, hi, key, e, space, child, t, k0);
        },
        None => {
            edited_out(c, q, b, level, n, i, lo, hi, key, e, space, child);
        },
    }
}

/// The edited child stays.
proof fn edited_in(
    c: Cow,
    q: Map<u64, Seq<u8>>,
    b: u64,
    level: u8,
    n: NodeV,
    i: int,
    lo: int,
    hi: int,
    key: Key,
    e: EditV,
    space: Seq<BgV>,
    child: EditedV,
    t: u64,
    k0: Key,
)
    requires
        level > 0,
        node_at(c.fs, c.pending, b) == Ok::<NodeV, Fault>(n),
        sound(c.fs, c.pending, b, level, lo, hi),
        i == child_index(n.ptrs, key),
        unoffered(c.fs, c.pending, b, level, space),
        booked(
            c.fs,
            c.pending,
            n.ptrs[i].blockptr,
            (level - 1) as u8,
            space,
            child.emitted,
            child.freed,
            child.space,
        ),
        child.node == Some((t, k0, (level - 1) as u8)),
        reworked(
            c,
            q,
            n.ptrs[i].blockptr,
            (level - 1) as u8,
            n.ptrs[i].key.ord(),
            bound(n.ptrs, i, hi),
            key,
            e,
            space,
            false,
            child,
        ),
        forall|j: int|
            0 <= j < n.ptrs.len() && j != i ==> child_unchanged(
                c.fs,
                c.pending,
                q,
                (#[trigger] n.ptrs[j]).blockptr,
                (level - 1) as u8,
                n.ptrs[j].key.ord(),
                bound(n.ptrs, j, hi),
            ),
    ensures
        child_reworked(
            c,
            q,
            b,
            level,
            lo,
            hi,
            key,
            e,
            space,
            edited_row(n.ptrs, i, child.node, c.generation),
            child,
        ),
{
    let fs = c.fs;
    let p = c.pending;
    let below = (level - 1) as u8;
    let row = n.ptrs;
    let heads = seq![KeyPtr { key: k0, blockptr: t, generation: c.generation }];
    let new = edited_row(row, i, child.node, c.generation);
    assert(new == spliced(row, i, heads));
    sound_interior(fs, p, b, level, lo, hi);
    child_index_range(row, key);
    tree_over_row(fs, p, b, level, n);
    assert(row_sound(fs, q, heads, below, bound(row, i, hi))) by {
        assert(heads[0].blockptr == t);
        assert forall|j: int| 0 <= j < heads.len() implies sound(
            fs,
            q,
            (#[trigger] heads[j]).blockptr,
            below,
            heads[j].key.ord(),
            bound(heads, j, bound(row, i, hi)),
        ) by {}
    }
    assert forall|a: u64| #[trigger] in_row(fs, q, heads, below, a) == in_tree(
        fs,
        q,
        t,
        below,
        a,
    ) by {
        if in_tree(fs, q, t, below, a) {
            assert(in_tree(fs, q, heads[0].blockptr, below, a));
        }
    }
    assert forall|j: int, a: u64|
        #![trigger row[j], in_row(fs, q, heads, below, a)]
        0 <= j < row.len() && j != i && in_row(fs, q, heads, below, a) implies !in_tree(
        fs,
        p,
        row[j].blockptr,
        below,
        a,
    ) by {
        assert(in_tree(fs, q, t, below, a));
        if in_tree(fs, p, row[j].blockptr, below, a) {
            siblings_untouched(
                fs,
                p,
                b,
                level,
                n,
                i,
                j,
                lo,
                hi,
                space,
                child.emitted,
                child.freed,
                child.space,
                a,
            );
        }
    }
    assert(fits_in(fs, p, q, row, i, heads, below, hi));
    spliced_sound(fs, p, q, row, i, heads, below, hi);
    spliced_at(row, i, heads, 0);
    assert(lo <= new[0].key.ord());
    assert forall|k: Key, x: Seq<u8>| #[trigger] row_holds(fs, q, new, below, k, x) == after_edit(
        fs,
        p,
        b,
        level,
        key,
        e,
        k,
        x,
    ) by {
        spliced_holds(fs, p, q, row, i, heads, below, hi, k, x);
        edit_reaches_child(c, b, level, n, i, lo, hi, key, e, k, x);
        assert(holds(fs, q, t, below, k, x) == after_edit(
            fs,
            p,
            row[i].blockptr,
            below,
            key,
            e,
            k,
            x,
        ));
        if holds(fs, q, t, below, k, x) {
            assert(holds(fs, q, heads[0].blockptr, below, k, x));
        }
    }
    assert forall|a: u64| #[trigger] in_row(fs, q, new, below, a) implies {
        &&& a != b
        &&& in_tree(fs, p, b, level, a) || offered(space, a as int) > 0
        &&& offered(child.space, a as int) == 0
        &&& !frees(child.freed, a)
    } by {
        spliced_blocks(fs, p, q, row, i, heads, below, hi, a);
        if in_row(fs, q, heads, below, a) {
            assert(in_tree(fs, q, t, below, a));
            if in_tree(fs, p, row[i].blockptr, below, a) {
                assert(in_row(fs, p, row, below, a));
                assert(in_tree(fs, p, b, level, a));
            }
            assert(in_tree(fs, p, b, level, b));
        } else {
            let j = choose|j: int|
                0 <= j < row.len() && j != i && in_tree(
                    fs,
                    p,
                    (#[trigger] row[j]).blockptr,
                    below,
                    a,
                );
            siblings_untouched(
                fs,
                p,
                b,
                level,
                n,
                i,
                j,
                lo,
                hi,
                space,
                child.emitted,
                child.freed,
                child.space,
                a,
            );
        }
    }
}

/// The edited child goes.
proof fn edited_out(
    c: Cow,
    q: Map<u64, Seq<u8>>,
    b: u64,
    level: u8,
    n: NodeV,
    i: int,
    lo: int,
    hi: int,
    key: Key,
    e: EditV,
    space: Seq<BgV>,
    child: EditedV,
)
    requires
        level > 0,
        node_at(c.fs, c.pending, b) == Ok::<NodeV, Fault>(n),
        sound(c.fs, c.pending, b, level, lo, hi),
        i == child_index(n.ptrs, key),
        unoffered(c.fs, c.pending, b, level, space),
        booked(
            c.fs,
            c.pending,
            n.ptrs[i].blockptr,
            (level - 1) as u8,
            space,
            child.emitted,
            child.freed,
            child.space,
        ),
        child.node is None,
        reworked(
            c,
            q,
            n.ptrs[i].blockptr,
            (level - 1) as u8,
            n.ptrs[i].key.ord(),
            bound(n.ptrs, i, hi),
            key,
            e,
            space,
            false,
            child,
        ),
        forall|j: int|
            0 <= j < n.ptrs.len() && j != i ==> child_unchanged(
                c.fs,
                c.pending,
                q,
                (#[trigger] n.ptrs[j]).blockptr,
                (level - 1) as u8,
                n.ptrs[j].key.ord(),
                bound(n.ptrs, j, hi),
            ),
    ensures
        child_reworked(
            c,
            q,
            b,
            level,
            lo,
            hi,
            key,
            e,
            space,
            edited_row(n.ptrs, i, child.node, c.generation),
            child,
        ),
{
    let fs = c.fs;
    let p = c.pending;
    let below = (level - 1) as u8;
    let row = n.ptrs;
    let new = edited_row(row, i, child.node, c.generation);
    sound_interior(fs, p, b, level, lo, hi);
    child_index_range(row, key);
    if new.len() > 0 {
        removed_sound(fs, p, q, row, i, below, hi);
    }
    assert forall|k: Key, x: Seq<u8>| #[trigger] row_holds(fs, q, new, below, k, x) == after_edit(
        fs,
        p,
        b,
        level,
        key,
        e,
        k,
        x,
    ) by {
        edit_reaches_child(c, b, level, n, i, lo, hi, key, e, k, x);
        assert(!after_edit(fs, p, row[i].blockptr, below, key, e, k, x));
        let f = |s: u64| holds(fs, p, s, below, k, x);
        let g = |s: u64| holds(fs, q, s, below, k, x);
        assert forall|j: int| 0 <= j < row.len() && j != i implies f((#[trigger] row[j]).blockptr)
            == g(row[j].blockptr) by {
            assert(child_unchanged(
                fs,
                p,
                q,
                row[j].blockptr,
                below,
                row[j].key.ord(),
                bound(row, j, hi),
            ));
        }
        removed_any(row, i, f, g);
    }
    assert forall|a: u64| #[trigger] in_row(fs, q, new, below, a) implies {
        &&& a != b
        &&& in_tree(fs, p, b, level, a) || offered(space, a as int) > 0
        &&& offered(child.space, a as int) == 0
        &&& !frees(child.freed, a)
    } by {
        let f = |s: u64| in_tree(fs, p, s, below, a);
        let g = |s: u64| in_tree(fs, q, s, below, a);
        assert forall|j: int| 0 <= j < row.len() && j != i implies f((#[trigger] row[j]).blockptr)
            == g(row[j].blockptr) by {
            assert(child_unchanged(
                fs,
                p,
                q,
                row[j].blockptr,
                below,
                row[j].key.ord(),
                bound(row, j, hi),
            ));
        }
        removed_any(row, i, f, g);
        let j = choose|j: int| 0 <= j < row.len() && j != i && f((#[trigger] row[j]).blockptr);
        siblings_untouched(
            fs,
            p,
            b,
            level,
            n,
            i,
            j,
            lo,
            hi,
            space,
            child.emitted,
            child.freed,
            child.space,
            a,
        );
    }
}

/// The empty leaf that an emptied root becomes.
pub open spec fn empty_leaf(c: Cow, n: NodeV, t: u64) -> LeafV {
    LeafV {
        bytenr: t,
        generation: c.generation,
        owner: c.owner,
        flags: 1,
        metadata_uuid: n.metadata_uuid,
        chunk_tree_uuid: n.chunk_tree_uuid,
        csum_type: c.fs.sb.csum_type,
        items: Seq::empty(),
    }
}

/// A block handed out for metadata, as a place to write to.
proof fn handed_spot(c: Cow, space: Seq<BgV>, level: u8)
    ensures
        match alloc_meta(space, c.fs.sb.node_size, c.owner) {
            None => spot(c, space, level, None, None) is None,
            Some((t, rest)) => spot(c, space, level, None, None) matches Some(s) && s.target == t
                && s.space == rest && s.freed.len() == 0,
        },
{
}

/// What editing child `i` comes to is booked.
proof fn interior_edit_booked(
    c: Cow,
    space: Seq<BgV>,
    b: u64,
    level: u8,
    n: NodeV,
    i: int,
    lo: int,
    hi: int,
    key: Key,
    is_root: bool,
    entries: Seq<InteriorEntry>,
    child: EditedV,
)
    requires
        level > 0,
        c.fs.sb.node_size > 0,
        node_at(c.fs, c.pending, b) == Ok::<NodeV, Fault>(n),
        sound(c.fs, c.pending, b, level, lo, hi),
        0 <= i < n.ptrs.len(),
        unoffered(c.fs, c.pending, b, level, space),
        booked(
            c.fs,
            c.pending,
            n.ptrs[i].blockptr,
            (level - 1) as u8,
            space,
            child.emitted,
            child.freed,
            child.space,
        ),
        interior_edited(c, n, entries, child, level, reusable(c, n, b), b, key, is_root) is Ok,
    ensures
        ({
            let d = interior_edited(
                c,
                n,
                entries,
                child,
                level,
                reusable(c, n, b),
                b,
                key,
                is_root,
            )->Ok_0;
            booked(c.fs, c.pending, b, level, space, d.emitted, d.freed, d.space)
        }),
{
    let reuse = reusable(c, n, b);
    let d = interior_edited(c, n, entries, child, level, reuse, b, key, is_root)->Ok_0;
    booked_above(
        c.fs,
        c.pending,
        b,
        level,
        n,
        i,
        lo,
        hi,
        space,
        child.emitted,
        child.freed,
        child.space,
    );
    if entries.len() == 0 && !is_root {
        booked_dropped(
            c.fs,
            c.pending,
            b,
            level,
            space,
            child.emitted,
            child.freed,
            child.space,
            level,
        );
    } else if entries.len() == 0 {
        handed_spot(c, child.space, 0);
        let s = spot(c, child.space, 0, None, None)->Some_0;
        let raw = emit_leaf(empty_leaf(c, n, s.target), c.fs.sb.node_size)->Ok_0;
        booked_more(
            c,
            b,
            level,
            space,
            child.emitted,
            child.freed,
            child.space,
            0,
            None,
            None,
            raw,
        );
        assert(child.freed + s.freed =~= child.freed);
        emits_pushed(child.emitted, s.target, raw, b);
        booked_dropped(
            c.fs,
            c.pending,
            b,
            level,
            space,
            child.emitted.push((s.target, raw)),
            child.freed,
            s.space,
            level,
        );
    } else if is_root && entries.len() == 1 {
        booked_dropped(
            c.fs,
            c.pending,
            b,
            level,
            space,
            child.emitted,
            child.freed,
            child.space,
            level,
        );
    } else {
        let s = spot(c, child.space, level, reuse, Some(b))->Some_0;
        let raw = write_interior(
            c,
            interior_of(n, c.fs.sb.csum_type),
            s.target,
            entries,
        )->Ok_0;
        booked_more(
            c,
            b,
            level,
            space,
            child.emitted,
            child.freed,
            child.space,
            level,
            reuse,
            Some(b),
            raw,
        );
    }
}

/// What is written and given up beyond the child's own changes.
proof fn interior_edit_extras(
    c: Cow,
    space: Seq<BgV>,
    b: u64,
    level: u8,
    n: NodeV,
    key: Key,
    is_root: bool,
    entries: Seq<InteriorEntry>,
    child: EditedV,
    d: EditedV,
)
    requires
        level > 0,
        c.fs.sb.node_size > 0,
        tidy(child.space),
        interior_edited(c, n, entries, child, level, reusable(c, n, b), b, key, is_root) == Ok::<
            EditedV,
            Fault,
        >(d),
    ensures
        forall|a: u64|
            !emits(child.emitted, a) && a != b && offered(child.space, a as int) == 0
                ==> !#[trigger] emits(d.emitted, a),
        forall|a: u64| !frees(child.freed, a) && a != b ==> !#[trigger] frees(d.freed, a),
        forall|a: u64| emits(child.emitted, a) ==> #[trigger] emits(d.emitted, a),
        forall|j: int|
            0 <= j < child.emitted.len() ==> j < d.emitted.len() && #[trigger] child.emitted[j]
                == d.emitted[j],
        forall|a: int| #[trigger] offered(d.space, a) <= offered(child.space, a),
{
    let reuse = reusable(c, n, b);
    if entries.len() == 0 && !is_root {
        extras_dropped(child, b, level);
    } else if entries.len() == 0 {
        handed_spot(c, child.space, 0);
        spot_facts(c, child.space, 0, None, None);
        let s = spot(c, child.space, 0, None, None)->Some_0;
        let raw = emit_leaf(empty_leaf(c, n, s.target), c.fs.sb.node_size)->Ok_0;
        extras_dropped(child, b, level);
        assert forall|a: u64| #[trigger] emits(d.emitted, a) == (emits(child.emitted, a) || a
            == s.target) by {
            emits_pushed(child.emitted, s.target, raw, a);
        }
    } else if is_root && entries.len() == 1 {
        extras_dropped(child, b, level);
    } else {
        let s = spot(c, child.space, level, reuse, Some(b))->Some_0;
        let raw = write_interior(
            c,
            interior_of(n, c.fs.sb.csum_type),
            s.target,
            entries,
        )->Ok_0;
        spot_facts(c, child.space, level, reuse, Some(b));
        assert forall|a: u64| #[trigger] emits(d.emitted, a) == (emits(child.emitted, a) || a
            == s.target) by {
            emits_pushed(child.emitted, s.target, raw, a);
        }
        assert forall|a: u64| !frees(child.freed, a) && a != b implies !#[trigger] frees(
            d.freed,
            a,
        ) by {
            frees_joined(child.freed, s.freed, a);
            frees_one(b, level, a);
        }
    }
}

proof fn extras_dropped(child: EditedV, b: u64, level: u8)
    ensures
        forall|a: u64| #[trigger]
            frees(child.freed.push((b, level)), a) == (frees(child.freed, a) || a == b),
{
    let more = child.freed.push((b, level));
    assert(more =~= child.freed + seq![(b, level)]);
    assert forall|a: u64| #[trigger] frees(more, a) == (frees(child.freed, a) || a == b) by {
        frees_joined(child.freed, seq![(b, level)], a);
        frees_one(b, level, a);
    }
}

/// What editing child `i` comes to holds what the edit makes of it.
#[verifier::rlimit(60)]
#[verifier::spinoff_prover]
proof fn interior_reworked(
    c: Cow,
    space: Seq<BgV>,
    b: u64,
    level: u8,
    n: NodeV,
    i: int,
    lo: int,
    hi: int,
    key: Key,
    e: EditV,
    is_root: bool,
    child: EditedV,
    q: Map<u64, Seq<u8>>,
    d: EditedV,
)
    requires
        level > 0,
        c.fs.sb.node_size > 0,
        node_at(c.fs, c.pending, b) == Ok::<NodeV, Fault>(n),
        sound(c.fs, c.pending, b, level, lo, hi),
        lo <= key.ord() < hi,
        i == child_index(n.ptrs, key),
        0 <= i < n.ptrs.len(),
        unoffered(c.fs, c.pending, b, level, space),
        booked(
            c.fs,
            c.pending,
            n.ptrs[i].blockptr,
            (level - 1) as u8,
            space,
            child.emitted,
            child.freed,
            child.space,
        ),
        reworked(
            c,
            q,
            n.ptrs[i].blockptr,
            (level - 1) as u8,
            n.ptrs[i].key.ord(),
            bound(n.ptrs, i, hi),
            key,
            e,
            space,
            false,
            child,
        ),
        interior_edited(
            c,
            n,
            child_edited(
                interior_of(n, c.fs.sb.csum_type).entries,
                i,
                child.node,
                c.generation,
            ),
            child,
            level,
            reusable(c, n, b),
            b,
            key,
            is_root,
        ) == Ok::<EditedV, Fault>(d),
        carries(q, d.emitted),
        keeps(c.fs, c.pending, q, b, level, d.emitted, d.freed),
    ensures
        reworked(c, q, b, level, lo, hi, key, e, space, is_root, d),
{
    let fs = c.fs;
    let p = c.pending;
    let below = (level - 1) as u8;
    let h = interior_of(n, c.fs.sb.csum_type);
    let reuse = reusable(c, n, b);
    let entries = child_edited(h.entries, i, child.node, c.generation);
    let row = edited_row(n.ptrs, i, child.node, c.generation);
    assert(h.entries =~= entries_of_row(n.ptrs));
    edited_row_entries(n.ptrs, i, child.node, c.generation);
    assert(entries == entries_of_row(row));
    interior_edit_booked(c, space, b, level, n, i, lo, hi, key, is_root, entries, child);
    interior_edit_extras(c, space, b, level, n, key, is_root, entries, child, d);
    child_is_reworked(
        c,
        q,
        b,
        level,
        n,
        i,
        lo,
        hi,
        key,
        e,
        space,
        child,
        d.emitted,
        d.freed,
    );
    sound_interior(fs, p, b, level, lo, hi);
    header_of_node(fs, p, b);
    assert forall|a: u64| #[trigger] in_row(fs, q, row, below, a) implies (in_tree(
        fs,
        p,
        b,
        level,
        a,
    ) || offered(space, a as int) > 0) && offered(d.space, a as int) == 0 && !frees(
        d.freed,
        a,
    ) by {
        assert(offered(d.space, a as int) <= offered(child.space, a as int));
    }
    if entries.len() == 0 {
        assert forall|k: Key, x: Seq<u8>| !#[trigger] after_edit(
            fs,
            p,
            b,
            level,
            key,
            e,
            k,
            x,
        ) by {
            assert(!row_holds(fs, q, row, below, k, x));
        }
        if is_root {
            handed_spot(c, child.space, 0);
            spot_facts(c, child.space, 0, None, None);
            let t = alloc_meta(child.space, fs.sb.node_size, c.owner)->Some_0.0;
            let leaf = empty_leaf(c, n, t);
            let last = child.emitted.len() as int;
            assert(d.emitted[last].0 == t);
            assert(q[d.emitted[last].0] == d.emitted[last].1);
            leaf_stands(c, q, leaf, d.emitted[last].1);
            sound_leaf(fs, q, t, key.ord(), hi);
            assert(emits(d.emitted, t));
            assert forall|k: Key, x: Seq<u8>| #[trigger] holds(fs, q, t, 0, k, x) == after_edit(
                fs,
                p,
                b,
                level,
                key,
                e,
                k,
                x,
            ) by {
                assert(leaf_node(leaf).items.len() == 0);
            }
        }
    } else if is_root && entries.len() == 1 {
        let t = row[0].blockptr;
        assert(entries[0] == entry_of(row[0]));
        assert(sound(fs, q, row[0].blockptr, below, row[0].key.ord(), bound(row, 0, hi)));
        assert forall|k: Key, x: Seq<u8>| #[trigger] holds(fs, q, t, below, k, x) == after_edit(
            fs,
            p,
            b,
            level,
            key,
            e,
            k,
            x,
        ) by {
            assert(row_holds(fs, q, row, below, k, x) == after_edit(
                fs,
                p,
                b,
                level,
                key,
                e,
                k,
                x,
            ));
            if holds(fs, q, t, below, k, x) {
                assert(holds(fs, q, row[0].blockptr, below, k, x));
            }
        }
        assert forall|a: u64| #[trigger] in_tree(fs, q, t, below, a) implies (in_tree(
            fs,
            p,
            b,
            level,
            a,
        ) || offered(space, a as int) > 0) && offered(d.space, a as int) == 0 && !frees(
            d.freed,
            a,
        ) by {
            assert(in_tree(fs, q, row[0].blockptr, below, a));
            assert(in_row(fs, q, row, below, a));
        }
    } else {
        let s = spot(c, child.space, level, reuse, Some(b))->Some_0;
        let raw = write_interior(c, h, s.target, entries)->Ok_0;
        spot_facts(c, child.space, level, reuse, Some(b));
        let last = child.emitted.len() as int;
        assert(d.emitted[last] == (s.target, raw));
        assert(q[d.emitted[last].0] == raw);
        ptrs_of_entries(row);
        interior_stands(c, q, h, s.target, entries, raw);
        assert(emits(d.emitted, s.target));
        assert(!in_row(fs, q, row, below, s.target)) by {
            if in_row(fs, q, row, below, s.target) {
                assert(offered(child.space, s.target as int) == 0);
            }
        }
        node_over_row(fs, q, s.target, level, row, hi);
        assert(entries[0] == entry_of(row[0]));
        assert(row[0].key.ord() < hi) by {
            if row.len() > 1 {
                assert(row[0].key.ord() < row[row.len() - 1].key.ord());
            }
        }
    }
}

/// What an edit comes to is booked.
pub proof fn edit_booked(
    c: Cow,
    space: Seq<BgV>,
    b: u64,
    level: u8,
    lo: int,
    hi: int,
    key: Key,
    e: EditV,
    is_root: bool,
)
    requires
        c.fs.sb.node_size > 0,
        tidy(space),
        sound(c.fs, c.pending, b, level, lo, hi),
        unoffered(c.fs, c.pending, b, level, space),
        edit_below(c, space, b, level, key, e, is_root) is Ok,
    ensures
        ({
            let d = edit_below(c, space, b, level, key, e, is_root)->Ok_0;
            booked(c.fs, c.pending, b, level, space, d.emitted, d.freed, d.space)
        }),
    decreases level,
{
    reveal(edit_below);
    if level == 0 {
        sound_leaf(c.fs, c.pending, b, lo, hi);
        let n = node_at(c.fs, c.pending, b)->Ok_0;
        leaf_edit_booked(c, space, b, n, edit_items(n.items, key, e)->Ok_0, key, is_root);
    } else {
        sound_interior(c.fs, c.pending, b, level, lo, hi);
        let n = node_at(c.fs, c.pending, b)->Ok_0;
        let below = (level - 1) as u8;
        child_index_range(n.ptrs, key);
        let i = child_index(n.ptrs, key);
        let cb = n.ptrs[i].blockptr;
        child_unoffered(c, space, b, level, n, i);
        assert(sound(
            c.fs,
            c.pending,
            n.ptrs[i].blockptr,
            below,
            n.ptrs[i].key.ord(),
            bound(n.ptrs, i, hi),
        ));
        edit_booked(
            c,
            space,
            cb,
            below,
            n.ptrs[i].key.ord(),
            bound(n.ptrs, i, hi),
            key,
            e,
            false,
        );
        let child = edit_below(c, space, cb, below, key, e, false)->Ok_0;
        let entries = child_edited(
            interior_of(n, c.fs.sb.csum_type).entries,
            i,
            child.node,
            c.generation,
        );
        interior_edit_booked(c, space, b, level, n, i, lo, hi, key, is_root, entries, child);
    }
}

/// An edited tree holds what the edit makes of it, and the item to edit was
/// there.
pub proof fn edit_reworked(
    c: Cow,
    space: Seq<BgV>,
    b: u64,
    level: u8,
    lo: int,
    hi: int,
    key: Key,
    e: EditV,
    is_root: bool,
    q: Map<u64, Seq<u8>>,
)
    requires
        c.fs.sb.node_size > 0,
        tidy(space),
        sound(c.fs, c.pending, b, level, lo, hi),
        unoffered(c.fs, c.pending, b, level, space),
        edit_below(c, space, b, level, key, e, is_root) is Ok,
        carries(q, edit_below(c, space, b, level, key, e, is_root)->Ok_0.emitted),
        keeps(
            c.fs,
            c.pending,
            q,
            b,
            level,
            edit_below(c, space, b, level, key, e, is_root)->Ok_0.emitted,
            edit_below(c, space, b, level, key, e, is_root)->Ok_0.freed,
        ),
    ensures
        reworked(
            c,
            q,
            b,
            level,
            lo,
            hi,
            key,
            e,
            space,
            is_root,
            edit_below(c, space, b, level, key, e, is_root)->Ok_0,
        ),
        lo <= key.ord() < hi,
    decreases level,
{
    reveal(edit_below);
    let d = edit_below(c, space, b, level, key, e, is_root)->Ok_0;
    if level == 0 {
        sound_leaf(c.fs, c.pending, b, lo, hi);
        let n = node_at(c.fs, c.pending, b)->Ok_0;
        leaf_reworked(c, space, b, n, lo, hi, key, e, is_root, q, d);
        items_edited(n.items, key, e, lo, hi);
    } else {
        sound_interior(c.fs, c.pending, b, level, lo, hi);
        let n = node_at(c.fs, c.pending, b)->Ok_0;
        let below = (level - 1) as u8;
        child_index_range(n.ptrs, key);
        let i = child_index(n.ptrs, key);
        let cb = n.ptrs[i].blockptr;
        let up = bound(n.ptrs, i, hi);
        child_unoffered(c, space, b, level, n, i);
        assert(sound(c.fs, c.pending, n.ptrs[i].blockptr, below, n.ptrs[i].key.ord(), up));
        edit_booked(c, space, cb, below, n.ptrs[i].key.ord(), up, key, e, false);
        let child = edit_below(c, space, cb, below, key, e, false)->Ok_0;
        let entries = child_edited(
            interior_of(n, c.fs.sb.csum_type).entries,
            i,
            child.node,
            c.generation,
        );
        interior_edit_extras(c, space, b, level, n, key, is_root, entries, child, d);
        edited_child_carried(c, q, space, b, level, n, i, lo, hi, child, d);
        edit_reworked(c, space, cb, below, n.ptrs[i].key.ord(), up, key, e, false, q);
        if i > 0 {
            assert(n.ptrs[0].key.ord() < n.ptrs[i].key.ord());
        }
        if i + 1 < n.ptrs.len() - 1 {
            assert(n.ptrs[i + 1].key.ord() < n.ptrs[n.ptrs.len() - 1].key.ord());
        }
        interior_reworked(
            c,
            space,
            b,
            level,
            n,
            i,
            lo,
            hi,
            key,
            e,
            is_root,
            child,
            q,
            d,
        );
    }
}

/// Blocks that carry a change of the tree carry the change of its child.
proof fn edited_child_carried(
    c: Cow,
    q: Map<u64, Seq<u8>>,
    space: Seq<BgV>,
    b: u64,
    level: u8,
    n: NodeV,
    i: int,
    lo: int,
    hi: int,
    child: EditedV,
    d: EditedV,
)
    requires
        level > 0,
        node_at(c.fs, c.pending, b) == Ok::<NodeV, Fault>(n),
        sound(c.fs, c.pending, b, level, lo, hi),
        0 <= i < n.ptrs.len(),
        unoffered(c.fs, c.pending, b, level, space),
        booked(
            c.fs,
            c.pending,
            n.ptrs[i].blockptr,
            (level - 1) as u8,
            space,
            child.emitted,
            child.freed,
            child.space,
        ),
        forall|a: u64|
            !emits(child.emitted, a) && a != b && offered(child.space, a as int) == 0
                ==> !#[trigger] emits(d.emitted, a),
        forall|a: u64| !frees(child.freed, a) && a != b ==> !#[trigger] frees(d.freed, a),
        forall|j: int|
            0 <= j < child.emitted.len() ==> j < d.emitted.len() && #[trigger] child.emitted[j]
                == d.emitted[j],
        carries(q, d.emitted),
        keeps(c.fs, c.pending, q, b, level, d.emitted, d.freed),
    ensures
        carries(q, child.emitted),
        keeps(
            c.fs,
            c.pending,
            q,
            n.ptrs[i].blockptr,
            (level - 1) as u8,
            child.emitted,
            child.freed,
        ),
{
    let below = (level - 1) as u8;
    let cb = n.ptrs[i].blockptr;
    tree_over_row(c.fs, c.pending, b, level, n);
    sound_interior(c.fs, c.pending, b, level, lo, hi);
    assert forall|j: int| 0 <= j < child.emitted.len() implies q.contains_key(
        (#[trigger] child.emitted[j]).0,
    ) && q[child.emitted[j].0] == child.emitted[j].1 by {
        assert(d.emitted[j] == child.emitted[j]);
    }
    assert forall|a: u64| #[trigger]
        in_tree(c.fs, c.pending, cb, below, a) && !emits(child.emitted, a) && !frees(
            child.freed,
            a,
        ) implies node_at(c.fs, q, a) == node_at(c.fs, c.pending, a) by {
        assert(in_tree(c.fs, c.pending, n.ptrs[i].blockptr, below, a));
        assert(in_row(c.fs, c.pending, n.ptrs, below, a));
        assert(in_tree(c.fs, c.pending, b, level, a));
        assert(a != b);
        assert(offered(space, a as int) == 0);
        assert(offered(child.space, a as int) <= offered(space, a as int));
        assert(!emits(d.emitted, a));
        assert(!frees(d.freed, a));
    }
}

/// What editing a tree comes to is booked, and the tree does not grow higher.
pub proof fn tree_edit_booked(c: Cow, space: Seq<BgV>, root: u64, level: u8, key: Key, e: EditV)
    requires
        c.fs.sb.node_size > 0,
        tidy(space),
        sound(c.fs, c.pending, root, level, 0, keys_end()),
        unoffered(c.fs, c.pending, root, level, space),
        tree_edit(c, space, root, level, key, e) is Ok,
    ensures
        ({
            let r = tree_edit(c, space, root, level, key, e)->Ok_0;
            booked(c.fs, c.pending, root, level, space, r.emitted, r.freed, r.space)
        }),
{
    reveal(tree_edit);
    edit_booked(c, space, root, level, 0, keys_end(), key, e, true);
}

/// An edited tree holds what the edit makes of it; the item to edit was there.
pub proof fn tree_edit_reworked(
    c: Cow,
    space: Seq<BgV>,
    root: u64,
    level: u8,
    key: Key,
    e: EditV,
    q: Map<u64, Seq<u8>>,
)
    requires
        c.fs.sb.node_size > 0,
        tidy(space),
        sound(c.fs, c.pending, root, level, 0, keys_end()),
        unoffered(c.fs, c.pending, root, level, space),
        tree_edit(c, space, root, level, key, e) is Ok,
        carries(q, tree_edit(c, space, root, level, key, e)->Ok_0.emitted),
        keeps(
            c.fs,
            c.pending,
            q,
            root,
            level,
            tree_edit(c, space, root, level, key, e)->Ok_0.emitted,
            tree_edit(c, space, root, level, key, e)->Ok_0.freed,
        ),
    ensures
        ({
            let r = tree_edit(c, space, root, level, key, e)->Ok_0;
            &&& regrown(c.fs, c.pending, q, root, level, space, r)
            &&& r.level <= level
            &&& exists|o: Seq<u8>| #[trigger] holds(c.fs, c.pending, root, level, key, o)
            &&& forall|k: Key, x: Seq<u8>| #[trigger]
                holds(c.fs, q, r.root, r.level, k, x) == after_edit(
                    c.fs,
                    c.pending,
                    root,
                    level,
                    key,
                    e,
                    k,
                    x,
                )
        }),
{
    reveal(tree_edit);
    edit_reworked(c, space, root, level, 0, keys_end(), key, e, true, q);
    let d = edit_below(c, space, root, level, key, e, true)->Ok_0;
    let (t, k0, l) = d.node->Some_0;
    key_in_range(k0);
    sound_wider(c.fs, q, t, l, k0.ord(), keys_end(), 0, keys_end());
}

/// An edit succeeds only where it can be made of the payload that was held.
pub proof fn edit_was_possible(
    c: Cow,
    space: Seq<BgV>,
    b: u64,
    level: u8,
    lo: int,
    hi: int,
    key: Key,
    e: EditV,
    is_root: bool,
    x: Seq<u8>,
)
    requires
        sound(c.fs, c.pending, b, level, lo, hi),
        edit_below(c, space, b, level, key, e, is_root) is Ok,
        holds(c.fs, c.pending, b, level, key, x),
    ensures
        edited(x, e) is Ok,
    decreases level,
{
    let n = node_at(c.fs, c.pending, b)->Ok_0;
    if level == 0 {
        assert(edit_items(n.items, key, e) is Ok) by {
            reveal(edit_below);
            sound_leaf(c.fs, c.pending, b, lo, hi);
        }
        sound_leaf(c.fs, c.pending, b, lo, hi);
        reveal(edit_items);
        slot_bounds(n.items, key);
        let s = slot(n.items, key);
        let i = choose|i: int| 0 <= i < n.items.len() && n.items[i] == (Item { key, data: x });
        if i < s {
            assert(n.items[i].key.ord() < n.items[s].key.ord());
        } else if s < i {
            assert(n.items[s].key.ord() < n.items[i].key.ord());
        }
    } else {
        let below = (level - 1) as u8;
        let i = child_index(n.ptrs, key);
        sound_interior(c.fs, c.pending, b, level, lo, hi);
        child_index_range(n.ptrs, key);
        assert(edit_below(c, space, n.ptrs[i].blockptr, below, key, e, false) is Ok) by {
            reveal(edit_below);
        }
        tree_over_row(c.fs, c.pending, b, level, n);
        let j = choose|j: int|
            0 <= j < n.ptrs.len() && holds(
                c.fs,
                c.pending,
                (#[trigger] n.ptrs[j]).blockptr,
                below,
                key,
                x,
            );
        held_by_one(c.fs, c.pending, n.ptrs, below, hi, key, j, x);
        assert(sound(
            c.fs,
            c.pending,
            n.ptrs[i].blockptr,
            below,
            n.ptrs[i].key.ord(),
            bound(n.ptrs, i, hi),
        ));
        edit_was_possible(
            c,
            space,
            n.ptrs[i].blockptr,
            below,
            n.ptrs[i].key.ord(),
            bound(n.ptrs, i, hi),
            key,
            e,
            false,
            x,
        );
    }
}

} // verus!
