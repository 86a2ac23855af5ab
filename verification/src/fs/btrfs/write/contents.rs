//! What a tree holds.
//!
//! A sound tree is one that a search can rely on: keys ascend, every subtree
//! keeps within the bounds that its parent gives it, and no block is part of
//! the tree twice. In such a tree a search finds just what the leaves hold.

use vstd::prelude::*;

use crate::error::Fault;
use crate::fs::btrfs::search::{find_below, payload_of};
use crate::fs::btrfs::tree::{child_index, child_index_range, Item, Key, KeyPtr, NodeV};
use crate::fs::btrfs::volume::{node_at, FsV};
use crate::seqs::{first_idx, first_idx_props};

verus! {

/// Whether block `a` is part of the tree of `level` at `b`.
pub open spec fn in_tree(fs: FsV, p: Map<u64, Seq<u8>>, b: u64, level: u8, a: u64) -> bool
    decreases level,
{
    a == b || (level > 0 && match node_at(fs, p, b) {
        Err(_) => false,
        Ok(n) => exists|i: int|
            0 <= i < n.ptrs.len() && in_tree(
                fs,
                p,
                (#[trigger] n.ptrs[i]).blockptr,
                (level - 1) as u8,
                a,
            ),
    })
}

/// Whether the tree of `level` at `b` holds an item with key `k` and payload
/// `d`.
pub open spec fn holds(
    fs: FsV,
    p: Map<u64, Seq<u8>>,
    b: u64,
    level: u8,
    k: Key,
    d: Seq<u8>,
) -> bool
    decreases level,
{
    match node_at(fs, p, b) {
        Err(_) => false,
        Ok(n) => if level == 0 {
            n.items.contains(Item { key: k, data: d })
        } else {
            exists|i: int|
                0 <= i < n.ptrs.len() && holds(
                    fs,
                    p,
                    (#[trigger] n.ptrs[i]).blockptr,
                    (level - 1) as u8,
                    k,
                    d,
                )
        },
    }
}

/// Keys of items ascend.
pub open spec fn items_ascend(items: Seq<Item>) -> bool {
    forall|i: int, j: int|
        0 <= i < j < items.len() ==> (#[trigger] items[i]).key.ord() < (
        #[trigger] items[j]).key.ord()
}

/// Keys of items lie from `lo` up to `hi`.
pub open spec fn items_within(items: Seq<Item>, lo: int, hi: int) -> bool {
    forall|i: int| 0 <= i < items.len() ==> lo <= (#[trigger] items[i]).key.ord() < hi
}

/// Keys of child pointers ascend.
pub open spec fn row_ascends(row: Seq<KeyPtr>) -> bool {
    forall|i: int, j: int|
        0 <= i < j < row.len() ==> (#[trigger] row[i]).key.ord() < (#[trigger] row[j]).key.ord()
}

/// Where the keys below child `i` end, if those of the whole row end at `hi`.
pub open spec fn bound(row: Seq<KeyPtr>, i: int, hi: int) -> int {
    if i + 1 < row.len() {
        row[i + 1].key.ord()
    } else {
        hi
    }
}

/// Whether block `a` is part of one of the trees of `level` in `row`.
pub open spec fn in_row(fs: FsV, p: Map<u64, Seq<u8>>, row: Seq<KeyPtr>, level: u8, a: u64) -> bool {
    exists|i: int| 0 <= i < row.len() && in_tree(fs, p, (#[trigger] row[i]).blockptr, level, a)
}

/// No two trees of a row have a block in common.
pub open spec fn row_apart(fs: FsV, p: Map<u64, Seq<u8>>, row: Seq<KeyPtr>, level: u8) -> bool {
    forall|i: int, j: int, a: u64|
        #![trigger row[i], row[j], in_tree(fs, p, row[i].blockptr, level, a)]
        0 <= i < row.len() && 0 <= j < row.len() && i != j && in_tree(
            fs,
            p,
            row[i].blockptr,
            level,
            a,
        ) ==> !in_tree(fs, p, row[j].blockptr, level, a)
}

/// The tree of `level` at `b` is sound, with keys from `lo` up to `hi`.
#[verifier::opaque]
pub open spec fn sound(fs: FsV, p: Map<u64, Seq<u8>>, b: u64, level: u8, lo: int, hi: int) -> bool
    decreases level,
{
    match node_at(fs, p, b) {
        Err(_) => false,
        Ok(n) => n.level == level && if level == 0 {
            items_ascend(n.items) && items_within(n.items, lo, hi)
        } else {
            let below = (level - 1) as u8;
            &&& n.ptrs.len() > 0
            &&& lo <= n.ptrs[0].key.ord()
            &&& n.ptrs.last().key.ord() < hi
            &&& row_ascends(n.ptrs)
            &&& forall|i: int|
                0 <= i < n.ptrs.len() ==> sound(
                    fs,
                    p,
                    (#[trigger] n.ptrs[i]).blockptr,
                    below,
                    n.ptrs[i].key.ord(),
                    bound(n.ptrs, i, hi),
                )
            &&& !in_row(fs, p, n.ptrs, below, b)
            &&& row_apart(fs, p, n.ptrs, below)
        },
    }
}

/// A row of sound trees of `level`, with keys from that of the first pointer up
/// to `hi`.
pub open spec fn row_sound(fs: FsV, p: Map<u64, Seq<u8>>, row: Seq<KeyPtr>, level: u8, hi: int) -> bool {
    &&& row.len() > 0
    &&& row.last().key.ord() < hi
    &&& row_ascends(row)
    &&& forall|i: int|
        0 <= i < row.len() ==> sound(
            fs,
            p,
            (#[trigger] row[i]).blockptr,
            level,
            row[i].key.ord(),
            bound(row, i, hi),
        )
    &&& row_apart(fs, p, row, level)
}

/// Whether one of the trees of `level` in `row` holds an item.
pub open spec fn row_holds(
    fs: FsV,
    p: Map<u64, Seq<u8>>,
    row: Seq<KeyPtr>,
    level: u8,
    k: Key,
    d: Seq<u8>,
) -> bool {
    exists|i: int| 0 <= i < row.len() && holds(fs, p, (#[trigger] row[i]).blockptr, level, k, d)
}

/// What an interior node of a sound tree is.
pub proof fn sound_interior(fs: FsV, p: Map<u64, Seq<u8>>, b: u64, level: u8, lo: int, hi: int)
    requires
        level > 0,
    ensures
        sound(fs, p, b, level, lo, hi) == (node_at(fs, p, b) matches Ok(n) && n.level == level
            && n.ptrs.len() > 0 && lo <= n.ptrs[0].key.ord() && row_sound(
            fs,
            p,
            n.ptrs,
            (level - 1) as u8,
            hi,
        ) && !in_row(fs, p, n.ptrs, (level - 1) as u8, b)),
{
    reveal(sound);
}

/// A tree above level 0 is its root node and the trees of the row below.
pub proof fn tree_over_row(fs: FsV, p: Map<u64, Seq<u8>>, b: u64, level: u8, n: NodeV)
    requires
        level > 0,
        node_at(fs, p, b) == Ok::<NodeV, Fault>(n),
    ensures
        forall|a: u64| #[trigger]
            in_tree(fs, p, b, level, a) == (a == b || in_row(
                fs,
                p,
                n.ptrs,
                (level - 1) as u8,
                a,
            )),
        forall|k: Key, d: Seq<u8>| #[trigger]
            holds(fs, p, b, level, k, d) == row_holds(fs, p, n.ptrs, (level - 1) as u8, k, d),
{
    let below = (level - 1) as u8;
    let row = node_at(fs, p, b)->Ok_0.ptrs;
    assert(row == n.ptrs);
    assert forall|a: u64| #[trigger] in_tree(fs, p, b, level, a) == (a == b || in_row(
        fs,
        p,
        row,
        below,
        a,
    )) by {
        if in_row(fs, p, row, below, a) {
            let i = choose|i: int|
                0 <= i < row.len() && in_tree(fs, p, (#[trigger] row[i]).blockptr, below, a);
            assert(in_tree(fs, p, n.ptrs[i].blockptr, below, a));
        }
    }
    assert forall|k: Key, d: Seq<u8>| #[trigger] holds(fs, p, b, level, k, d) == row_holds(
        fs,
        p,
        row,
        below,
        k,
        d,
    ) by {
        if row_holds(fs, p, row, below, k, d) {
            let i = choose|i: int|
                0 <= i < row.len() && holds(fs, p, (#[trigger] row[i]).blockptr, below, k, d);
            assert(holds(fs, p, n.ptrs[i].blockptr, below, k, d));
        }
    }
}

/// What a leaf of a sound tree is.
pub proof fn sound_leaf(fs: FsV, p: Map<u64, Seq<u8>>, b: u64, lo: int, hi: int)
    ensures
        sound(fs, p, b, 0, lo, hi) == (node_at(fs, p, b) matches Ok(n) && n.level == 0
            && items_ascend(n.items) && items_within(n.items, lo, hi)),
{
    reveal(sound);
}

/// A sound tree is sound within wider bounds.
pub proof fn sound_wider(
    fs: FsV,
    p: Map<u64, Seq<u8>>,
    b: u64,
    level: u8,
    lo: int,
    hi: int,
    lo2: int,
    hi2: int,
)
    requires
        sound(fs, p, b, level, lo, hi),
        lo2 <= lo,
        hi <= hi2,
    ensures
        sound(fs, p, b, level, lo2, hi2),
    decreases level,
{
    reveal(sound);
    let n = node_at(fs, p, b)->Ok_0;
    if level > 0 {
        let below = (level - 1) as u8;
        assert forall|i: int| 0 <= i < n.ptrs.len() implies sound(
            fs,
            p,
            (#[trigger] n.ptrs[i]).blockptr,
            below,
            n.ptrs[i].key.ord(),
            bound(n.ptrs, i, hi2),
        ) by {
            let k = n.ptrs[i].key.ord();
            sound_wider(
                fs,
                p,
                n.ptrs[i].blockptr,
                below,
                k,
                bound(n.ptrs, i, hi),
                k,
                bound(n.ptrs, i, hi2),
            );
        }
    }
}

/// The keys that a sound tree holds lie within its bounds.
pub proof fn held_within(
    fs: FsV,
    p: Map<u64, Seq<u8>>,
    b: u64,
    level: u8,
    lo: int,
    hi: int,
    k: Key,
    d: Seq<u8>,
)
    requires
        sound(fs, p, b, level, lo, hi),
        holds(fs, p, b, level, k, d),
    ensures
        lo <= k.ord() < hi,
    decreases level,
{
    reveal(sound);
    let n = node_at(fs, p, b)->Ok_0;
    if level == 0 {
        let i = choose|i: int| 0 <= i < n.items.len() && n.items[i] == (Item { key: k, data: d });
        assert(n.items[i].key == k);
    } else {
        let below = (level - 1) as u8;
        let i = choose|i: int|
            0 <= i < n.ptrs.len() && holds(fs, p, (#[trigger] n.ptrs[i]).blockptr, below, k, d);
        held_within(
            fs,
            p,
            n.ptrs[i].blockptr,
            below,
            n.ptrs[i].key.ord(),
            bound(n.ptrs, i, hi),
            k,
            d,
        );
        if i > 0 {
            assert(n.ptrs[0].key.ord() < n.ptrs[i].key.ord());
        }
        if i + 1 < n.ptrs.len() {
            if i + 1 < n.ptrs.len() - 1 {
                assert(n.ptrs[i + 1].key.ord() < n.ptrs[n.ptrs.len() - 1].key.ord());
            }
        }
    }
}

/// An item with key `k` is held below the child that a search for `k` takes, if
/// at all.
pub proof fn held_by_one(
    fs: FsV,
    p: Map<u64, Seq<u8>>,
    row: Seq<KeyPtr>,
    level: u8,
    hi: int,
    k: Key,
    j: int,
    x: Seq<u8>,
)
    requires
        row_sound(fs, p, row, level, hi),
        0 <= j < row.len(),
        holds(fs, p, row[j].blockptr, level, k, x),
    ensures
        j == child_index(row, k),
{
    child_index_range(row, k);
    let i = child_index(row, k);
    assert(sound(fs, p, row[j].blockptr, level, row[j].key.ord(), bound(row, j, hi)));
    held_within(fs, p, row[j].blockptr, level, row[j].key.ord(), bound(row, j, hi), k, x);
    if j < i {
        if j + 1 < i {
            assert(row[j + 1].key.ord() < row[i].key.ord());
        }
    }
}

/// A sound tree holds a key with one payload at most.
pub proof fn held_with_one(
    fs: FsV,
    p: Map<u64, Seq<u8>>,
    b: u64,
    level: u8,
    lo: int,
    hi: int,
    k: Key,
    d: Seq<u8>,
    e: Seq<u8>,
)
    requires
        sound(fs, p, b, level, lo, hi),
        holds(fs, p, b, level, k, d),
        holds(fs, p, b, level, k, e),
    ensures
        d == e,
    decreases level,
{
    reveal(sound);
    let n = node_at(fs, p, b)->Ok_0;
    if level == 0 {
        let i = choose|i: int| 0 <= i < n.items.len() && n.items[i] == (Item { key: k, data: d });
        let j = choose|j: int| 0 <= j < n.items.len() && n.items[j] == (Item { key: k, data: e });
        if i < j {
            assert(n.items[i].key.ord() < n.items[j].key.ord());
        } else if j < i {
            assert(n.items[j].key.ord() < n.items[i].key.ord());
        }
    } else {
        let below = (level - 1) as u8;
        let i = choose|i: int|
            0 <= i < n.ptrs.len() && holds(fs, p, (#[trigger] n.ptrs[i]).blockptr, below, k, d);
        let j = choose|j: int|
            0 <= j < n.ptrs.len() && holds(fs, p, (#[trigger] n.ptrs[j]).blockptr, below, k, e);
        let (ki, bi) = (n.ptrs[i].key.ord(), bound(n.ptrs, i, hi));
        let (kj, bj) = (n.ptrs[j].key.ord(), bound(n.ptrs, j, hi));
        held_within(fs, p, n.ptrs[i].blockptr, below, ki, bi, k, d);
        held_within(fs, p, n.ptrs[j].blockptr, below, kj, bj, k, e);
        if i < j {
            if i + 1 < j {
                assert(n.ptrs[i + 1].key.ord() < n.ptrs[j].key.ord());
            }
        } else if j < i {
            if j + 1 < i {
                assert(n.ptrs[j + 1].key.ord() < n.ptrs[i].key.ord());
            }
        }
        assert(i == j);
        held_with_one(fs, p, n.ptrs[i].blockptr, below, ki, bi, k, d, e);
    }
}

/// A search in a sound tree finds what the tree holds, and nothing else.
pub proof fn search_finds(
    fs: FsV,
    p: Map<u64, Seq<u8>>,
    b: u64,
    level: u8,
    lo: int,
    hi: int,
    k: Key,
    depth: u8,
)
    requires
        sound(fs, p, b, level, lo, hi),
        level < depth,
    ensures
        match find_below(fs, p, b, k, depth) {
            Err(_) => false,
            Ok(None) => forall|d: Seq<u8>| !#[trigger] holds(fs, p, b, level, k, d),
            Ok(Some(d)) => holds(fs, p, b, level, k, d) && forall|e: Seq<u8>| #[trigger]
                holds(fs, p, b, level, k, e) ==> e == d,
        },
    decreases level,
{
    reveal(find_below);
    reveal(sound);
    let n = node_at(fs, p, b)->Ok_0;
    if level == 0 {
        let f = |x: Item| x.key == k;
        first_idx_props(n.items, f);
        let i = first_idx(n.items, f);
        assert(payload_of(n.items, k) == if i < n.items.len() {
            Some(n.items[i].data)
        } else {
            None
        });
        if i < n.items.len() {
            assert(f(n.items[i]));
            assert(n.items[i] == (Item { key: k, data: n.items[i].data }));
            assert(n.items.contains(Item { key: k, data: n.items[i].data }));
        }
        assert forall|e: Seq<u8>| #[trigger] holds(fs, p, b, level, k, e) implies i
            < n.items.len() && e == n.items[i].data by {
            let j = choose|j: int|
                0 <= j < n.items.len() && n.items[j] == (Item { key: k, data: e });
            assert(f(n.items[j]));
            if j > i {
                assert(n.items[i].key.ord() < n.items[j].key.ord());
            }
        }
    } else {
        let below = (level - 1) as u8;
        let i = child_index(n.ptrs, k);
        child_index_range(n.ptrs, k);
        assert forall|e: Seq<u8>, j: int|
            0 <= j < n.ptrs.len() && #[trigger] holds(
                fs,
                p,
                n.ptrs[j].blockptr,
                below,
                k,
                e,
            ) implies j == i && n.ptrs[i].key.ord() <= k.ord() by {
            held_within(
                fs,
                p,
                n.ptrs[j].blockptr,
                below,
                n.ptrs[j].key.ord(),
                bound(n.ptrs, j, hi),
                k,
                e,
            );
            if j < i {
                if j + 1 < i {
                    assert(n.ptrs[j + 1].key.ord() < n.ptrs[i].key.ord());
                }
            }
        }
        if n.ptrs[i].key.ord() > k.ord() {
            assert forall|d: Seq<u8>| !#[trigger] holds(fs, p, b, level, k, d) by {
                if holds(fs, p, b, level, k, d) {
                    let j = choose|j: int|
                        0 <= j < n.ptrs.len() && holds(
                            fs,
                            p,
                            (#[trigger] n.ptrs[j]).blockptr,
                            below,
                            k,
                            d,
                        );
                    assert(j == i);
                }
            }
        } else {
            let cb = n.ptrs[i].blockptr;
            search_finds(
                fs,
                p,
                cb,
                below,
                n.ptrs[i].key.ord(),
                bound(n.ptrs, i, hi),
                k,
                (depth - 1) as u8,
            );
            assert forall|e: Seq<u8>| #[trigger] holds(fs, p, b, level, k, e) == holds(
                fs,
                p,
                cb,
                below,
                k,
                e,
            ) by {
                if holds(fs, p, b, level, k, e) {
                    let j = choose|j: int|
                        0 <= j < n.ptrs.len() && holds(
                            fs,
                            p,
                            (#[trigger] n.ptrs[j]).blockptr,
                            below,
                            k,
                            e,
                        );
                    assert(j == i);
                }
            }
        }
    }
}

/// A tree none of whose blocks changes stays what it is.
pub proof fn tree_unchanged(
    fs: FsV,
    p: Map<u64, Seq<u8>>,
    q: Map<u64, Seq<u8>>,
    b: u64,
    level: u8,
    lo: int,
    hi: int,
)
    requires
        forall|a: u64| #[trigger]
            in_tree(fs, p, b, level, a) ==> node_at(fs, q, a) == node_at(fs, p, a),
    ensures
        forall|a: u64| #[trigger] in_tree(fs, q, b, level, a) == in_tree(fs, p, b, level, a),
        forall|k: Key, d: Seq<u8>| #[trigger]
            holds(fs, q, b, level, k, d) == holds(fs, p, b, level, k, d),
        sound(fs, q, b, level, lo, hi) == sound(fs, p, b, level, lo, hi),
    decreases level,
{
    reveal(sound);
    assert(in_tree(fs, p, b, level, b));
    assert(node_at(fs, q, b) == node_at(fs, p, b));
    if level > 0 {
        let below = (level - 1) as u8;
        match node_at(fs, p, b) {
            Err(_) => {},
            Ok(n) => {
                assert forall|i: int| 0 <= i < n.ptrs.len() implies child_unchanged(
                    fs,
                    p,
                    q,
                    (#[trigger] n.ptrs[i]).blockptr,
                    below,
                    n.ptrs[i].key.ord(),
                    bound(n.ptrs, i, hi),
                ) by {
                    assert forall|a: u64| #[trigger]
                        in_tree(fs, p, n.ptrs[i].blockptr, below, a) implies node_at(fs, q, a)
                        == node_at(fs, p, a) by {
                        assert(in_tree(fs, p, b, level, a));
                    }
                    tree_unchanged(
                        fs,
                        p,
                        q,
                        n.ptrs[i].blockptr,
                        below,
                        n.ptrs[i].key.ord(),
                        bound(n.ptrs, i, hi),
                    );
                }
                assert forall|a: u64| #[trigger]
                    in_tree(fs, q, b, level, a) == in_tree(fs, p, b, level, a) by {
                    row_blocks_unchanged(fs, p, q, n.ptrs, below, hi, a);
                }
                assert forall|k: Key, d: Seq<u8>| #[trigger]
                    holds(fs, q, b, level, k, d) == holds(fs, p, b, level, k, d) by {
                    row_items_unchanged(fs, p, q, n.ptrs, below, hi, k, d);
                }
                row_unchanged(fs, p, q, n.ptrs, below, hi);
                assert forall|i: int| 0 <= i < n.ptrs.len() implies sound(
                    fs,
                    q,
                    (#[trigger] n.ptrs[i]).blockptr,
                    below,
                    n.ptrs[i].key.ord(),
                    bound(n.ptrs, i, hi),
                ) == sound(
                    fs,
                    p,
                    n.ptrs[i].blockptr,
                    below,
                    n.ptrs[i].key.ord(),
                    bound(n.ptrs, i, hi),
                ) by {
                    assert(child_unchanged(
                        fs,
                        p,
                        q,
                        n.ptrs[i].blockptr,
                        below,
                        n.ptrs[i].key.ord(),
                        bound(n.ptrs, i, hi),
                    ));
                }
            },
        }
    }
}

/// One tree is the same under two sets of blocks.
pub open spec fn child_unchanged(
    fs: FsV,
    p: Map<u64, Seq<u8>>,
    q: Map<u64, Seq<u8>>,
    b: u64,
    level: u8,
    lo: int,
    hi: int,
) -> bool {
    &&& forall|a: u64| #[trigger] in_tree(fs, q, b, level, a) == in_tree(fs, p, b, level, a)
    &&& forall|k: Key, d: Seq<u8>| #[trigger]
        holds(fs, q, b, level, k, d) == holds(fs, p, b, level, k, d)
    &&& sound(fs, q, b, level, lo, hi) == sound(fs, p, b, level, lo, hi)
}

proof fn row_blocks_unchanged(
    fs: FsV,
    p: Map<u64, Seq<u8>>,
    q: Map<u64, Seq<u8>>,
    row: Seq<KeyPtr>,
    level: u8,
    hi: int,
    a: u64,
)
    requires
        forall|i: int|
            0 <= i < row.len() ==> child_unchanged(
                fs,
                p,
                q,
                (#[trigger] row[i]).blockptr,
                level,
                row[i].key.ord(),
                bound(row, i, hi),
            ),
    ensures
        in_row(fs, q, row, level, a) == in_row(fs, p, row, level, a),
{
    if in_row(fs, q, row, level, a) {
        let i = choose|i: int|
            0 <= i < row.len() && in_tree(fs, q, (#[trigger] row[i]).blockptr, level, a);
        assert(in_tree(fs, p, row[i].blockptr, level, a));
    }
    if in_row(fs, p, row, level, a) {
        let i = choose|i: int|
            0 <= i < row.len() && in_tree(fs, p, (#[trigger] row[i]).blockptr, level, a);
        assert(in_tree(fs, q, row[i].blockptr, level, a));
    }
}

proof fn row_items_unchanged(
    fs: FsV,
    p: Map<u64, Seq<u8>>,
    q: Map<u64, Seq<u8>>,
    row: Seq<KeyPtr>,
    level: u8,
    hi: int,
    k: Key,
    d: Seq<u8>,
)
    requires
        forall|i: int|
            0 <= i < row.len() ==> child_unchanged(
                fs,
                p,
                q,
                (#[trigger] row[i]).blockptr,
                level,
                row[i].key.ord(),
                bound(row, i, hi),
            ),
    ensures
        row_holds(fs, q, row, level, k, d) == row_holds(fs, p, row, level, k, d),
{
    if row_holds(fs, q, row, level, k, d) {
        let i = choose|i: int|
            0 <= i < row.len() && holds(fs, q, (#[trigger] row[i]).blockptr, level, k, d);
        assert(holds(fs, p, row[i].blockptr, level, k, d));
    }
    if row_holds(fs, p, row, level, k, d) {
        let i = choose|i: int|
            0 <= i < row.len() && holds(fs, p, (#[trigger] row[i]).blockptr, level, k, d);
        assert(holds(fs, q, row[i].blockptr, level, k, d));
    }
}

proof fn row_unchanged(
    fs: FsV,
    p: Map<u64, Seq<u8>>,
    q: Map<u64, Seq<u8>>,
    row: Seq<KeyPtr>,
    level: u8,
    hi: int,
)
    requires
        forall|i: int|
            0 <= i < row.len() ==> child_unchanged(
                fs,
                p,
                q,
                (#[trigger] row[i]).blockptr,
                level,
                row[i].key.ord(),
                bound(row, i, hi),
            ),
    ensures
        row_apart(fs, q, row, level) == row_apart(fs, p, row, level),
        forall|a: u64| #[trigger] in_row(fs, q, row, level, a) == in_row(fs, p, row, level, a),
{
    assert forall|a: u64| #[trigger]
        in_row(fs, q, row, level, a) == in_row(fs, p, row, level, a) by {
        row_blocks_unchanged(fs, p, q, row, level, hi, a);
    }
    if row_apart(fs, p, row, level) {
        assert forall|i: int, j: int, a: u64|
            #![trigger row[i], row[j], in_tree(fs, q, row[i].blockptr, level, a)]
            0 <= i < row.len() && 0 <= j < row.len() && i != j && in_tree(
                fs,
                q,
                row[i].blockptr,
                level,
                a,
            ) implies !in_tree(fs, q, row[j].blockptr, level, a) by {
            assert(in_tree(fs, p, row[i].blockptr, level, a));
            assert(!in_tree(fs, p, row[j].blockptr, level, a));
        }
    }
    if row_apart(fs, q, row, level) {
        assert forall|i: int, j: int, a: u64|
            #![trigger row[i], row[j], in_tree(fs, p, row[i].blockptr, level, a)]
            0 <= i < row.len() && 0 <= j < row.len() && i != j && in_tree(
                fs,
                p,
                row[i].blockptr,
                level,
                a,
            ) implies !in_tree(fs, p, row[j].blockptr, level, a) by {
            assert(in_tree(fs, q, row[i].blockptr, level, a));
            assert(!in_tree(fs, q, row[j].blockptr, level, a));
        }
    }
}

} // verus!
