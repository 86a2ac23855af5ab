//! Collecting a range of keys gives just what a tree holds there.

use vstd::prelude::*;

use crate::fs::btrfs::search::{
    child_meets, range_below, range_children, range_items, within, MAX_DEPTH,
};
use crate::fs::btrfs::tree::{Item, Key, KeyPtr};
use crate::fs::btrfs::volume::{node_at, FsV};
use crate::fs::btrfs::write::booking::keys_end;
use crate::fs::btrfs::write::contents::{
    bound, held_within, holds, items_ascend, items_within, row_holds, row_sound, sound,
    sound_interior, sound_leaf, tree_over_row,
};
use crate::fs::btrfs::write::tree_map::{contents, contents_hold};
use crate::fs::btrfs::write::workspace::StateV;

verus! {

/// Whether a key lies from `lo` to `hi`.
pub open spec fn between(k: Key, lo: Key, hi: Key) -> bool {
    lo.ord() <= k.ord() <= hi.ord()
}

proof fn within_keeps(items: Seq<Item>, lo: Key, hi: Key)
    requires
        items_ascend(items),
    ensures
        items_ascend(within(items, lo, hi)),
        forall|x: Item| #[trigger]
            within(items, lo, hi).contains(x) == (items.contains(x) && between(x.key, lo, hi)),
    decreases items.len(),
{
    let w = within(items, lo, hi);
    if items.len() > 0 {
        let front = items.drop_last();
        let v = within(front, lo, hi);
        assert(items_ascend(front)) by {
            assert forall|i: int, j: int| 0 <= i < j < front.len() implies (
            #[trigger] front[i]).key.ord() < (#[trigger] front[j]).key.ord() by {
                assert(items[i].key.ord() < items[j].key.ord());
            }
        }
        within_keeps(front, lo, hi);
        assert forall|x: Item| #[trigger] w.contains(x) == (items.contains(x) && between(
            x.key,
            lo,
            hi,
        )) by {
            if items.contains(x) {
                let i = choose|i: int| 0 <= i < items.len() && items[i] == x;
                if i < front.len() {
                    assert(front[i] == x);
                    assert(front.contains(x));
                }
            }
            if front.contains(x) {
                let i = choose|i: int| 0 <= i < front.len() && front[i] == x;
                assert(items[i] == x);
            }
            if v.contains(x) {
                let i = choose|i: int| 0 <= i < v.len() && v[i] == x;
                assert(w[i] == x);
            }
            if w.contains(x) {
                let i = choose|i: int| 0 <= i < w.len() && w[i] == x;
                if i < v.len() {
                    assert(v[i] == x);
                    assert(v.contains(x));
                } else {
                    assert(items[items.len() - 1] == x);
                }
            }
            if x == items.last() && between(x.key, lo, hi) {
                assert(w[w.len() - 1] == x);
            }
        }
        assert forall|i: int, j: int| 0 <= i < j < w.len() implies (#[trigger] w[i]).key.ord() < (
        #[trigger] w[j]).key.ord() by {
            assert(v[i] == w[i]);
            assert(v.contains(v[i]));
            if j < v.len() {
                assert(v[j] == w[j]);
            } else {
                assert(front.contains(v[i]));
                let x = choose|x: int| 0 <= x < front.len() && front[x] == v[i];
                assert(items[x].key.ord() < items[items.len() - 1].key.ord());
            }
        }
    }
}

/// Whether one of the first `n` trees of a row holds an item.
pub open spec fn front_holds(
    fs: FsV,
    p: Map<u64, Seq<u8>>,
    row: Seq<KeyPtr>,
    n: nat,
    level: u8,
    x: Item,
) -> bool {
    exists|i: int|
        0 <= i < n && holds(fs, p, (#[trigger] row[i]).blockptr, level, x.key, x.data)
}

proof fn below_lists(
    fs: FsV,
    p: Map<u64, Seq<u8>>,
    b: u64,
    level: u8,
    from: int,
    to: int,
    lo: Key,
    hi: Key,
    depth: u8,
)
    requires
        sound(fs, p, b, level, from, to),
        level < depth,
    ensures
        range_below(fs, p, b, lo, hi, depth) matches Ok(items) && {
            &&& items_ascend(items)
            &&& items_within(items, from, to)
            &&& forall|x: Item| #[trigger]
                items.contains(x) == (between(x.key, lo, hi) && holds(
                    fs,
                    p,
                    b,
                    level,
                    x.key,
                    x.data,
                ))
        },
    decreases level, 0nat, 0nat,
{
    reveal(range_below);
    reveal(range_children);
    if level == 0 {
        sound_leaf(fs, p, b, from, to);
        let n = node_at(fs, p, b)->Ok_0;
        within_keeps(n.items, lo, hi);
        let w = within(n.items, lo, hi);
        assert forall|i: int| 0 <= i < w.len() implies from <= (#[trigger] w[i]).key.ord() < to by {
            assert(w.contains(w[i]));
            assert(n.items.contains(w[i]));
        }
        assert forall|x: Item| #[trigger] w.contains(x) == (between(x.key, lo, hi) && holds(
            fs,
            p,
            b,
            level,
            x.key,
            x.data,
        )) by {
            assert(x == (Item { key: x.key, data: x.data }));
        }
    } else {
        sound_interior(fs, p, b, level, from, to);
        let n = node_at(fs, p, b)->Ok_0;
        let below = (level - 1) as u8;
        tree_over_row(fs, p, b, level, n);
        children_list(fs, p, n.ptrs, n.ptrs.len(), below, to, lo, hi, (depth - 1) as u8);
        let items = range_below(fs, p, b, lo, hi, depth)->Ok_0;
        assert forall|x: Item| #[trigger] items.contains(x) == (between(x.key, lo, hi) && holds(
            fs,
            p,
            b,
            level,
            x.key,
            x.data,
        )) by {
            assert(front_holds(fs, p, n.ptrs, n.ptrs.len(), below, x) == row_holds(
                fs,
                p,
                n.ptrs,
                below,
                x.key,
                x.data,
            ));
        }
    }
}

proof fn children_list(
    fs: FsV,
    p: Map<u64, Seq<u8>>,
    row: Seq<KeyPtr>,
    n: nat,
    level: u8,
    to: int,
    lo: Key,
    hi: Key,
    depth: u8,
)
    requires
        row_sound(fs, p, row, level, to),
        n <= row.len(),
        level < depth,
    ensures
        range_children(fs, p, row, n, lo, hi, depth) matches Ok(items) && {
            &&& items_ascend(items)
            &&& items_within(items, row[0].key.ord(), bound(row, n - 1, to))
            &&& forall|x: Item| #[trigger]
                items.contains(x) == (between(x.key, lo, hi) && front_holds(
                    fs,
                    p,
                    row,
                    n,
                    level,
                    x,
                ))
        },
    decreases level, 1nat, n,
{
    reveal(range_children);
    reveal(range_below);
    if n > 0 {
        let m = (n - 1) as nat;
        children_list(fs, p, row, m, level, to, lo, hi, depth);
        let a = range_children(fs, p, row, m, lo, hi, depth)->Ok_0;
        let c = row[m as int];
        assert(sound(fs, p, c.blockptr, level, c.key.ord(), bound(row, m as int, to)));
        below_lists(
            fs,
            p,
            c.blockptr,
            level,
            c.key.ord(),
            bound(row, m as int, to),
            lo,
            hi,
            depth,
        );
        let z = range_below(fs, p, c.blockptr, lo, hi, depth)->Ok_0;
        let items = range_children(fs, p, row, n, lo, hi, depth)->Ok_0;
        child_or_nothing(fs, p, row, m as int, level, to, lo, hi);
        assert(m == 0 ==> a.len() == 0) by {
            if m == 0 && a.len() > 0 {
                assert(a.contains(a[0]));
            }
        }
        if m > 0 {
            assert(row[0].key.ord() < row[m as int].key.ord());
            assert(bound(row, m - 1, to) == c.key.ord());
        }
        if n < row.len() {
            assert(row[m as int].key.ord() < row[n as int].key.ord());
        }
        assert(bound(row, m as int, to) >= c.key.ord()) by {
            if n == row.len() {
                assert(row.last() == c);
            }
        }
        assert forall|x: Item| #[trigger] items.contains(x) == (between(x.key, lo, hi)
            && front_holds(fs, p, row, n, level, x)) by {
            joined_contains(a, z, x);
            if front_holds(fs, p, row, n, level, x) {
                let i = choose|i: int|
                    0 <= i < n && holds(
                        fs,
                        p,
                        (#[trigger] row[i]).blockptr,
                        level,
                        x.key,
                        x.data,
                    );
                if i < m {
                    assert(front_holds(fs, p, row, m, level, x));
                }
            }
            if front_holds(fs, p, row, m, level, x) {
                let i = choose|i: int|
                    0 <= i < m && holds(
                        fs,
                        p,
                        (#[trigger] row[i]).blockptr,
                        level,
                        x.key,
                        x.data,
                    );
                assert(front_holds(fs, p, row, n, level, x));
            }
            if holds(fs, p, c.blockptr, level, x.key, x.data) {
                assert(holds(fs, p, row[m as int].blockptr, level, x.key, x.data));
                assert(front_holds(fs, p, row, n, level, x));
            }
        }
        if child_meets(row, m as int, lo, hi) {
            assert(items == a + z);
            assert forall|i: int, j: int| 0 <= i < j < items.len() implies (
            #[trigger] items[i]).key.ord() < (#[trigger] items[j]).key.ord() by {
                if j < a.len() {
                    assert(a[i].key.ord() < a[j].key.ord());
                } else if i >= a.len() {
                    assert(z[i - a.len()].key.ord() < z[j - a.len()].key.ord());
                } else {
                    assert(a[i].key.ord() < c.key.ord());
                    assert(z[j - a.len()].key.ord() >= c.key.ord());
                }
            }
            assert forall|i: int| 0 <= i < items.len() implies row[0].key.ord() <= (
            #[trigger] items[i]).key.ord() < bound(row, n - 1, to) by {
                if i < a.len() {
                    assert(a[i] == items[i]);
                } else {
                    assert(z[i - a.len()] == items[i]);
                }
            }
        } else {
            assert forall|i: int| 0 <= i < items.len() implies row[0].key.ord() <= (
            #[trigger] items[i]).key.ord() < bound(row, n - 1, to) by {
                assert(a[i] == items[i]);
            }
        }
    }
}

proof fn joined_contains(a: Seq<Item>, z: Seq<Item>, x: Item)
    ensures
        (a + z).contains(x) == (a.contains(x) || z.contains(x)),
{
    let s = a + z;
    if a.contains(x) {
        let i = choose|i: int| 0 <= i < a.len() && a[i] == x;
        assert(s[i] == x);
    }
    if z.contains(x) {
        let i = choose|i: int| 0 <= i < z.len() && z[i] == x;
        assert(s[a.len() + i] == x);
    }
    if s.contains(x) {
        let i = choose|i: int| 0 <= i < s.len() && s[i] == x;
        if i < a.len() {
            assert(a[i] == x);
        } else {
            assert(z[i - a.len()] == x);
        }
    }
}

/// A child that a range passes by holds nothing of it.
proof fn child_or_nothing(
    fs: FsV,
    p: Map<u64, Seq<u8>>,
    row: Seq<KeyPtr>,
    i: int,
    level: u8,
    to: int,
    lo: Key,
    hi: Key,
)
    requires
        row_sound(fs, p, row, level, to),
        0 <= i < row.len(),
    ensures
        !child_meets(row, i, lo, hi) ==> forall|k: Key, d: Seq<u8>| #[trigger]
            holds(fs, p, row[i].blockptr, level, k, d) ==> !between(k, lo, hi),
{
    assert forall|k: Key, d: Seq<u8>| #[trigger]
        holds(fs, p, row[i].blockptr, level, k, d) && !child_meets(row, i, lo, hi) implies !between(
        k,
        lo,
        hi,
    ) by {
        assert(sound(fs, p, row[i].blockptr, level, row[i].key.ord(), bound(row, i, to)));
        held_within(
            fs,
            p,
            row[i].blockptr,
            level,
            row[i].key.ord(),
            bound(row, i, to),
            k,
            d,
        );
    }
}

/// Collecting the keys from `lo` to `hi` of a sound tree succeeds, and lists
/// each item of the tree's map with such a key, once and in the order of the
/// keys, and nothing else.
pub proof fn range_reads_contents(fs: FsV, s: StateV, root: (u64, u8), lo: Key, hi: Key)
    requires
        sound(fs, s.pending, root.0, root.1, 0, keys_end()),
        root.1 < MAX_DEPTH,
    ensures
        range_items(fs, s.pending, root.0, lo, hi) matches Ok(items) && {
            &&& items_ascend(items)
            &&& forall|x: Item| #[trigger]
                items.contains(x) == (between(x.key, lo, hi) && contents(
                    fs,
                    s,
                    root,
                ).contains_key(x.key) && contents(fs, s, root)[x.key] == x.data)
        },
{
    below_lists(fs, s.pending, root.0, root.1, 0, keys_end(), lo, hi, MAX_DEPTH);
    let items = range_items(fs, s.pending, root.0, lo, hi)->Ok_0;
    assert forall|x: Item| #[trigger] items.contains(x) == (between(x.key, lo, hi) && contents(
        fs,
        s,
        root,
    ).contains_key(x.key) && contents(fs, s, root)[x.key] == x.data) by {
        contents_hold(fs, s, root, x.key, x.data);
    }
}

} // verus!
