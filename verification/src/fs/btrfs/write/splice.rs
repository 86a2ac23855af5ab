//! Replacing one child of a node by a row of others.

use vstd::prelude::*;

use crate::fs::btrfs::tree::{Key, KeyPtr};
use crate::fs::btrfs::volume::{node_at, FsV};
use crate::fs::btrfs::write::booking::row_of;
use crate::fs::btrfs::write::contents::{
    bound, child_unchanged, holds, in_row, in_tree, row_apart, row_ascends, row_holds, row_sound,
    sound, sound_interior, sound_wider,
};
use crate::fs::btrfs::write::cow::{entries_for, grown};
use crate::fs::btrfs::write::node::{entry_of, InteriorEntry};
use crate::fs::btrfs::write::roundtrip::ptr_of;
use crate::sort::{ascending, insert_ranked_position, stable_sort, stable_sort_of_ascending, Ranked};

verus! {

/// A row with child `i` replaced by `heads`.
#[verifier::opaque]
pub open spec fn spliced(row: Seq<KeyPtr>, i: int, heads: Seq<KeyPtr>) -> Seq<KeyPtr> {
    row.take(i) + heads + row.skip(i + 1)
}

/// A row of child pointers as the entries of an editable node.
pub open spec fn entries_of_row(row: Seq<KeyPtr>) -> Seq<InteriorEntry> {
    row.map_values(|p: KeyPtr| entry_of(p))
}

pub proof fn sorted_in(a: Seq<InteriorEntry>, h: Seq<InteriorEntry>, b: Seq<InteriorEntry>, k: int)
    requires
        1 <= k <= h.len(),
        forall|i: int, j: int|
            0 <= i < j < (a + h + b).len() ==> (#[trigger] (a + h + b)[i]).key.ord() < (
            #[trigger] (a + h + b)[j]).key.ord(),
    ensures
        stable_sort((a + seq![h[0]] + b) + h.subrange(1, k)) == a + h.take(k) + b,
    decreases k,
{
    let e = a + h + b;
    let own = a + seq![h[0]] + b;
    let n = a.len() as int;
    assert forall|i: int| 0 <= i < n implies #[trigger] e[i] == a[i] by {}
    assert forall|i: int| 0 <= i < h.len() implies #[trigger] h[i] == e[n + i] by {}
    assert forall|i: int| 0 <= i < b.len() implies #[trigger] b[i] == e[n + h.len() + i] by {}
    if k == 1 {
        assert(own + h.subrange(1, 1) =~= own);
        assert(ascending(own)) by {
            assert forall|i: int, j: int| 0 <= i <= j < own.len() implies own[i].rank()
                <= own[j].rank() by {
                let x = if i < n {
                    i
                } else if i == n {
                    n
                } else {
                    i - 1 + h.len()
                };
                let y = if j < n {
                    j
                } else if j == n {
                    n
                } else {
                    j - 1 + h.len()
                };
                assert(own[i] == e[x]);
                assert(own[j] == e[y]);
                if i < j {
                    assert(e[x].key.ord() < e[y].key.ord());
                }
            }
        }
        stable_sort_of_ascending(own);
        assert(h.take(1) =~= seq![h[0]]);
    } else {
        sorted_in(a, h, b, k - 1);
        let s = own + h.subrange(1, k);
        assert(s.drop_last() =~= own + h.subrange(1, k - 1));
        assert(s.last() == h[k - 1]);
        let t = a + h.take(k - 1) + b;
        let at = n + k - 1;
        assert forall|i: int| at <= i < t.len() implies (#[trigger] t[i]).rank() > h[k
            - 1].rank() by {
            let x = i - (k - 1) + h.len();
            assert(t[i] == b[i - at]);
            assert(t[i] == e[x]);
            assert(e[n + k - 1].key.ord() < e[x].key.ord());
        }
        assert(t[at - 1] == h[k - 2]);
        assert(e[n + k - 2].key.ord() < e[n + k - 1].key.ord());
        insert_ranked_position(t, h[k - 1], at);
        assert(t.insert(at, h[k - 1]) =~= a + h.take(k) + b);
    }
}

/// The entries of a node whose child was replaced are those of the spliced row.
pub proof fn grown_is_spliced(row: Seq<KeyPtr>, i: int, heads: Seq<(Key, u64)>, generation: u64)
    requires
        0 <= i < row.len(),
        heads.len() > 0,
        row_ascends(spliced(row, i, row_of(heads, generation))),
    ensures
        grown(entries_of_row(row), i, heads, generation) == entries_of_row(
            spliced(row, i, row_of(heads, generation)),
        ),
{
    reveal(spliced);
    let entries = entries_of_row(row);
    let h = entries_for(heads, generation);
    let e = spliced(row, i, row_of(heads, generation));
    let a = entries.take(i);
    let b = entries.skip(i + 1);
    assert(entries_of_row(e) =~= a + h + b);
    let own = entries.update(i, h[0]);
    assert(own =~= a + seq![h[0]] + b);
    if heads.len() > 1 {
        assert(entries_for(heads.skip(1), generation) =~= h.subrange(1, h.len() as int));
        assert forall|x: int, y: int| 0 <= x < y < (a + h + b).len() implies (
        #[trigger] (a + h + b)[x]).key.ord() < (#[trigger] (a + h + b)[y]).key.ord() by {
            assert((a + h + b)[x] == entry_of(e[x]));
            assert((a + h + b)[y] == entry_of(e[y]));
            assert(e[x].key.ord() < e[y].key.ord());
        }
        sorted_in(a, h, b, h.len() as int);
        assert(h.take(h.len() as int) =~= h);
    } else {
        assert(h =~= seq![h[0]]);
    }
}

/// Where the elements of a spliced row come from.
pub proof fn spliced_at(row: Seq<KeyPtr>, i: int, heads: Seq<KeyPtr>, e: int)
    requires
        0 <= i < row.len(),
        0 <= e < row.len() - 1 + heads.len(),
    ensures
        spliced(row, i, heads)[e] == if e < i {
            row[e]
        } else if e < i + heads.len() {
            heads[e - i]
        } else {
            row[e - heads.len() + 1]
        },
{
    reveal(spliced);
}

pub proof fn spliced_len(row: Seq<KeyPtr>, i: int, heads: Seq<KeyPtr>)
    requires
        0 <= i < row.len(),
    ensures
        spliced(row, i, heads).len() == row.len() - 1 + heads.len(),
{
    reveal(spliced);
}

/// A row whose other children are unchanged and whose child `i` gives way to a
/// sound row within its bounds.
pub open spec fn fits_in(
    fs: FsV,
    p: Map<u64, Seq<u8>>,
    q: Map<u64, Seq<u8>>,
    row: Seq<KeyPtr>,
    i: int,
    heads: Seq<KeyPtr>,
    level: u8,
    hi: int,
) -> bool {
    &&& 0 <= i < row.len()
    &&& row_sound(fs, p, row, level, hi)
    &&& row_sound(fs, q, heads, level, bound(row, i, hi))
    &&& i > 0 ==> row[i].key.ord() <= heads[0].key.ord()
    &&& forall|j: int|
        0 <= j < row.len() && j != i ==> child_unchanged(
            fs,
            p,
            q,
            (#[trigger] row[j]).blockptr,
            level,
            row[j].key.ord(),
            bound(row, j, hi),
        )
    &&& forall|j: int, a: u64|
        #![trigger row[j], in_row(fs, q, heads, level, a)]
        0 <= j < row.len() && j != i && in_row(fs, q, heads, level, a) ==> !in_tree(
            fs,
            p,
            row[j].blockptr,
            level,
            a,
        )
}

pub proof fn spliced_ascends(row: Seq<KeyPtr>, i: int, heads: Seq<KeyPtr>, hi: int)
    requires
        0 <= i < row.len(),
        row_ascends(row),
        row.last().key.ord() < hi,
        heads.len() > 0,
        row_ascends(heads),
        heads.last().key.ord() < bound(row, i, hi),
        i > 0 ==> row[i].key.ord() <= heads[0].key.ord(),
    ensures
        row_ascends(spliced(row, i, heads)),
        spliced(row, i, heads).last().key.ord() < hi,
{
    spliced_len(row, i, heads);
    let e = spliced(row, i, heads);
    let n = heads.len() as int;
    let up = bound(row, i, hi);
    assert forall|j: int| 0 <= j < n implies (#[trigger] heads[j]).key.ord() < up by {
        if j < n - 1 {
            assert(heads[j].key.ord() < heads[n - 1].key.ord());
        }
    }
    assert forall|j: int| 0 <= j < n implies heads[0].key.ord() <= (
    #[trigger] heads[j]).key.ord() by {
        if j > 0 {
            assert(heads[0].key.ord() < heads[j].key.ord());
        }
    }
    assert forall|x: int, y: int| 0 <= x < y < e.len() implies (#[trigger] e[x]).key.ord() < (
    #[trigger] e[y]).key.ord() by {
        spliced_at(row, i, heads, x);
        spliced_at(row, i, heads, y);
        if x < i {
            assert(row[x].key.ord() < row[i].key.ord());
            if y >= i + n {
                assert(row[x].key.ord() < row[y - n + 1].key.ord());
            } else if y < i {
                assert(row[x].key.ord() < row[y].key.ord());
            } else {
                assert(heads[0].key.ord() <= heads[y - i].key.ord());
            }
        } else if x < i + n {
            if y < i + n {
                assert(heads[x - i].key.ord() < heads[y - i].key.ord());
            } else {
                assert(heads[x - i].key.ord() < up);
                if y - n + 1 > i + 1 {
                    assert(row[i + 1].key.ord() < row[y - n + 1].key.ord());
                }
            }
        } else {
            assert(row[x - n + 1].key.ord() < row[y - n + 1].key.ord());
        }
    }
    spliced_at(row, i, heads, e.len() - 1);
    if i == row.len() - 1 {
        assert(e.last() == heads[n - 1]);
    } else {
        assert(e.last() == row[row.len() - 1]);
    }
}

pub proof fn spliced_apart(
    fs: FsV,
    p: Map<u64, Seq<u8>>,
    q: Map<u64, Seq<u8>>,
    row: Seq<KeyPtr>,
    i: int,
    heads: Seq<KeyPtr>,
    level: u8,
    hi: int,
)
    requires
        fits_in(fs, p, q, row, i, heads, level, hi),
    ensures
        row_apart(fs, q, spliced(row, i, heads), level),
{
    let e = spliced(row, i, heads);
    let n = heads.len() as int;
    spliced_len(row, i, heads);
    assert forall|x: int, y: int, a: u64|
        #![trigger e[x], e[y], in_tree(fs, q, e[x].blockptr, level, a)]
        0 <= x < e.len() && 0 <= y < e.len() && x != y && in_tree(
            fs,
            q,
            e[x].blockptr,
            level,
            a,
        ) implies !in_tree(fs, q, e[y].blockptr, level, a) by {
        spliced_at(row, i, heads, x);
        spliced_at(row, i, heads, y);
        let xs = i <= x < i + n;
        let ys = i <= y < i + n;
        let xo = if x < i {
            x
        } else {
            x - n + 1
        };
        let yo = if y < i {
            y
        } else {
            y - n + 1
        };
        if xs && ys {
            assert(in_tree(fs, q, heads[x - i].blockptr, level, a));
            assert(!in_tree(fs, q, heads[y - i].blockptr, level, a));
        } else if xs {
            assert(in_tree(fs, q, heads[x - i].blockptr, level, a));
            assert(in_row(fs, q, heads, level, a));
            assert(row[yo].blockptr == e[y].blockptr);
            assert(!in_tree(fs, p, row[yo].blockptr, level, a));
        } else if ys {
            assert(row[xo].blockptr == e[x].blockptr);
            if in_tree(fs, q, heads[y - i].blockptr, level, a) {
                assert(in_row(fs, q, heads, level, a));
                assert(!in_tree(fs, p, row[xo].blockptr, level, a));
            }
        } else {
            assert(row[xo].blockptr == e[x].blockptr);
            assert(row[yo].blockptr == e[y].blockptr);
            assert(in_tree(fs, p, row[xo].blockptr, level, a));
            assert(!in_tree(fs, p, row[yo].blockptr, level, a));
        }
    }
}

/// Where the keys below a child of a spliced row end.
proof fn spliced_bound(row: Seq<KeyPtr>, i: int, heads: Seq<KeyPtr>, hi: int, x: int)
    requires
        0 <= i < row.len(),
        heads.len() > 0,
        i > 0 ==> row[i].key.ord() <= heads[0].key.ord(),
        0 <= x < row.len() - 1 + heads.len(),
    ensures
        ({
            let e = spliced(row, i, heads);
            let n = heads.len() as int;
            if i <= x < i + n {
                e[x] == heads[x - i] && bound(e, x, hi) == bound(heads, x - i, bound(row, i, hi))
            } else {
                let y = if x < i {
                    x
                } else {
                    x - n + 1
                };
                0 <= y < row.len() && y != i && e[x] == row[y] && bound(row, y, hi) <= bound(
                    e,
                    x,
                    hi,
                )
            }
        }),
{
    let e = spliced(row, i, heads);
    spliced_len(row, i, heads);
    spliced_at(row, i, heads, x);
    if x + 1 < e.len() {
        spliced_at(row, i, heads, x + 1);
    }
}

proof fn kid_sound(fs: FsV, p: Map<u64, Seq<u8>>, row: Seq<KeyPtr>, level: u8, hi: int, j: int)
    requires
        row_sound(fs, p, row, level, hi),
        0 <= j < row.len(),
    ensures
        sound(fs, p, row[j].blockptr, level, row[j].key.ord(), bound(row, j, hi)),
{
}

proof fn other_kid_sound(
    fs: FsV,
    p: Map<u64, Seq<u8>>,
    q: Map<u64, Seq<u8>>,
    row: Seq<KeyPtr>,
    i: int,
    heads: Seq<KeyPtr>,
    level: u8,
    hi: int,
    y: int,
)
    requires
        fits_in(fs, p, q, row, i, heads, level, hi),
        0 <= y < row.len(),
        y != i,
    ensures
        sound(fs, q, row[y].blockptr, level, row[y].key.ord(), bound(row, y, hi)),
{
    kid_sound(fs, p, row, level, hi, y);
    assert(child_unchanged(
        fs,
        p,
        q,
        row[y].blockptr,
        level,
        row[y].key.ord(),
        bound(row, y, hi),
    ));
}

pub proof fn spliced_child_sound(
    fs: FsV,
    p: Map<u64, Seq<u8>>,
    q: Map<u64, Seq<u8>>,
    row: Seq<KeyPtr>,
    i: int,
    heads: Seq<KeyPtr>,
    level: u8,
    hi: int,
    x: int,
)
    requires
        fits_in(fs, p, q, row, i, heads, level, hi),
        0 <= x < row.len() - 1 + heads.len(),
    ensures
        ({
            let e = spliced(row, i, heads);
            sound(fs, q, e[x].blockptr, level, e[x].key.ord(), bound(e, x, hi))
        }),
{
    let e = spliced(row, i, heads);
    let n = heads.len() as int;
    spliced_bound(row, i, heads, hi, x);
    if i <= x < i + n {
        kid_sound(fs, q, heads, level, bound(row, i, hi), x - i);
    } else {
        let y = if x < i {
            x
        } else {
            x - n + 1
        };
        let k = row[y].key.ord();
        let up = bound(row, y, hi);
        other_kid_sound(fs, p, q, row, i, heads, level, hi, y);
        sound_wider(fs, q, row[y].blockptr, level, k, up, k, bound(e, x, hi));
    }
}

/// A row with a child replaced by a row that fits is sound.
pub proof fn spliced_sound(
    fs: FsV,
    p: Map<u64, Seq<u8>>,
    q: Map<u64, Seq<u8>>,
    row: Seq<KeyPtr>,
    i: int,
    heads: Seq<KeyPtr>,
    level: u8,
    hi: int,
)
    requires
        fits_in(fs, p, q, row, i, heads, level, hi),
    ensures
        row_sound(fs, q, spliced(row, i, heads), level, hi),
{
    let e = spliced(row, i, heads);
    spliced_len(row, i, heads);
    spliced_ascends(row, i, heads, hi);
    spliced_apart(fs, p, q, row, i, heads, level, hi);
    assert forall|x: int| 0 <= x < e.len() implies sound(
        fs,
        q,
        (#[trigger] e[x]).blockptr,
        level,
        e[x].key.ord(),
        bound(e, x, hi),
    ) by {
        spliced_child_sound(fs, p, q, row, i, heads, level, hi, x);
    }
}

/// A property that one of a spliced row has, one of the new children has or
/// one of the old ones.
pub proof fn spliced_any(
    row: Seq<KeyPtr>,
    i: int,
    heads: Seq<KeyPtr>,
    f: spec_fn(u64) -> bool,
    g: spec_fn(u64) -> bool,
)
    requires
        0 <= i < row.len(),
        forall|j: int|
            0 <= j < row.len() && j != i ==> f((#[trigger] row[j]).blockptr) == g(row[j].blockptr),
    ensures
        (exists|x: int|
            0 <= x < spliced(row, i, heads).len() && g(
                (#[trigger] spliced(row, i, heads)[x]).blockptr,
            )) == ((exists|x: int| 0 <= x < heads.len() && g((#[trigger] heads[x]).blockptr))
            || exists|j: int|
            0 <= j < row.len() && j != i && f((#[trigger] row[j]).blockptr)),
{
    let e = spliced(row, i, heads);
    let n = heads.len() as int;
    spliced_len(row, i, heads);
    if exists|x: int| 0 <= x < e.len() && g((#[trigger] e[x]).blockptr) {
        let x = choose|x: int| 0 <= x < e.len() && g((#[trigger] e[x]).blockptr);
        spliced_at(row, i, heads, x);
        if x < i {
            assert(f(row[x].blockptr));
        } else if x < i + n {
            assert(g(heads[x - i].blockptr));
        } else {
            assert(f(row[x - n + 1].blockptr));
        }
    }
    if exists|x: int| 0 <= x < n && g((#[trigger] heads[x]).blockptr) {
        let x = choose|x: int| 0 <= x < n && g((#[trigger] heads[x]).blockptr);
        spliced_at(row, i, heads, i + x);
        assert(g(e[i + x].blockptr));
    }
    if exists|j: int| 0 <= j < row.len() && j != i && f((#[trigger] row[j]).blockptr) {
        let j = choose|j: int|
            0 <= j < row.len() && j != i && f((#[trigger] row[j]).blockptr);
        let x = if j < i {
            j
        } else {
            j + n - 1
        };
        spliced_at(row, i, heads, x);
        assert(g(e[x].blockptr));
    }
}

/// What a spliced row holds.
pub proof fn spliced_holds(
    fs: FsV,
    p: Map<u64, Seq<u8>>,
    q: Map<u64, Seq<u8>>,
    row: Seq<KeyPtr>,
    i: int,
    heads: Seq<KeyPtr>,
    level: u8,
    hi: int,
    k: Key,
    d: Seq<u8>,
)
    requires
        fits_in(fs, p, q, row, i, heads, level, hi),
    ensures
        row_holds(fs, q, spliced(row, i, heads), level, k, d) == (row_holds(fs, q, heads, level, k, d)
            || exists|j: int|
            0 <= j < row.len() && j != i && holds(
                fs,
                p,
                (#[trigger] row[j]).blockptr,
                level,
                k, d,
            )),
{
    let f = |b: u64| holds(fs, p, b, level, k, d);
    let g = |b: u64| holds(fs, q, b, level, k, d);
    assert forall|j: int| 0 <= j < row.len() && j != i implies f((#[trigger] row[j]).blockptr)
        == g(row[j].blockptr) by {
        assert(child_unchanged(
            fs,
            p,
            q,
            row[j].blockptr,
            level,
            row[j].key.ord(),
            bound(row, j, hi),
        ));
    }
    spliced_any(row, i, heads, f, g);
}

/// Which blocks are part of a spliced row.
pub proof fn spliced_blocks(
    fs: FsV,
    p: Map<u64, Seq<u8>>,
    q: Map<u64, Seq<u8>>,
    row: Seq<KeyPtr>,
    i: int,
    heads: Seq<KeyPtr>,
    level: u8,
    hi: int,
    a: u64,
)
    requires
        fits_in(fs, p, q, row, i, heads, level, hi),
    ensures
        in_row(fs, q, spliced(row, i, heads), level, a) == (in_row(fs, q, heads, level, a)
            || exists|j: int|
            0 <= j < row.len() && j != i && in_tree(
                fs,
                p,
                (#[trigger] row[j]).blockptr,
                level,
                a,
            )),
{
    let f = |b: u64| in_tree(fs, p, b, level, a);
    let g = |b: u64| in_tree(fs, q, b, level, a);
    assert forall|j: int| 0 <= j < row.len() && j != i implies f((#[trigger] row[j]).blockptr)
        == g(row[j].blockptr) by {
        assert(child_unchanged(
            fs,
            p,
            q,
            row[j].blockptr,
            level,
            row[j].key.ord(),
            bound(row, j, hi),
        ));
    }
    spliced_any(row, i, heads, f, g);
}

proof fn part_ascends(row: Seq<KeyPtr>, a: int, b: int)
    requires
        row_ascends(row),
        0 <= a < b <= row.len(),
    ensures
        row_ascends(row.subrange(a, b)),
{
    let l = row.subrange(a, b);
    assert forall|i: int, j: int| 0 <= i < j < l.len() implies (#[trigger] l[i]).key.ord() < (
    #[trigger] l[j]).key.ord() by {
        assert(row[a + i].key.ord() < row[a + j].key.ord());
    }
}

proof fn part_apart(fs: FsV, q: Map<u64, Seq<u8>>, row: Seq<KeyPtr>, level: u8, a: int, b: int)
    requires
        row_apart(fs, q, row, level),
        0 <= a < b <= row.len(),
    ensures
        row_apart(fs, q, row.subrange(a, b), level),
{
    let l = row.subrange(a, b);
    assert forall|i: int, j: int, x: u64|
        #![trigger l[i], l[j], in_tree(fs, q, l[i].blockptr, level, x)]
        0 <= i < l.len() && 0 <= j < l.len() && i != j && in_tree(
            fs,
            q,
            l[i].blockptr,
            level,
            x,
        ) implies !in_tree(fs, q, l[j].blockptr, level, x) by {
        assert(in_tree(fs, q, row[a + i].blockptr, level, x));
        assert(!in_tree(fs, q, row[a + j].blockptr, level, x));
    }
}

proof fn part_kid_sound(
    fs: FsV,
    q: Map<u64, Seq<u8>>,
    row: Seq<KeyPtr>,
    level: u8,
    hi: int,
    a: int,
    b: int,
    j: int,
)
    requires
        row_sound(fs, q, row, level, hi),
        0 <= a < b <= row.len(),
        0 <= j < b - a,
    ensures
        ({
            let l = row.subrange(a, b);
            sound(
                fs,
                q,
                l[j].blockptr,
                level,
                l[j].key.ord(),
                bound(l, j, bound(row, b - 1, hi)),
            )
        }),
{
    kid_sound(fs, q, row, level, hi, a + j);
    let l = row.subrange(a, b);
    assert(l[j] == row[a + j]);
    if j + 1 < b - a {
        assert(l[j + 1] == row[a + j + 1]);
    }
}

/// Part of a sound row is sound.
proof fn part_sound(
    fs: FsV,
    q: Map<u64, Seq<u8>>,
    row: Seq<KeyPtr>,
    level: u8,
    hi: int,
    a: int,
    b: int,
)
    requires
        row_sound(fs, q, row, level, hi),
        0 <= a < b <= row.len(),
    ensures
        row_sound(fs, q, row.subrange(a, b), level, bound(row, b - 1, hi)),
{
    let l = row.subrange(a, b);
    part_ascends(row, a, b);
    part_apart(fs, q, row, level, a, b);
    assert(l.last() == row[b - 1]);
    if b < row.len() {
        assert(row[b - 1].key.ord() < row[b].key.ord());
    }
    assert forall|j: int| 0 <= j < l.len() implies sound(
        fs,
        q,
        (#[trigger] l[j]).blockptr,
        level,
        l[j].key.ord(),
        bound(l, j, bound(row, b - 1, hi)),
    ) by {
        part_kid_sound(fs, q, row, level, hi, a, b, j);
    }
}

proof fn row_cut_sound(fs: FsV, q: Map<u64, Seq<u8>>, row: Seq<KeyPtr>, level: u8, hi: int, mid: int)
    requires
        row_sound(fs, q, row, level, hi),
        0 < mid < row.len(),
    ensures
        row_sound(fs, q, row.take(mid), level, row[mid].key.ord()),
        row_sound(fs, q, row.skip(mid), level, hi),
{
    let n = row.len() as int;
    part_sound(fs, q, row, level, hi, 0, mid);
    part_sound(fs, q, row, level, hi, mid, n);
    assert(row.take(mid) =~= row.subrange(0, mid));
    assert(row.skip(mid) =~= row.subrange(mid, n));
}

proof fn row_cut_blocks(fs: FsV, q: Map<u64, Seq<u8>>, row: Seq<KeyPtr>, level: u8, hi: int, mid: int)
    requires
        row_sound(fs, q, row, level, hi),
        0 < mid < row.len(),
    ensures
        forall|a: u64| #[trigger]
            in_row(fs, q, row, level, a) == (in_row(fs, q, row.take(mid), level, a) || in_row(
                fs,
                q,
                row.skip(mid),
                level,
                a,
            )),
        forall|a: u64|
            in_row(fs, q, row.take(mid), level, a) ==> !#[trigger] in_row(
                fs,
                q,
                row.skip(mid),
                level,
                a,
            ),
{
    let l = row.take(mid);
    let r = row.skip(mid);
    assert forall|j: int| 0 <= j < l.len() implies #[trigger] l[j] == row[j] by {}
    assert forall|j: int| 0 <= j < r.len() implies #[trigger] r[j] == row[mid + j] by {}
    assert forall|a: u64| #[trigger] in_row(fs, q, row, level, a) == (in_row(fs, q, l, level, a)
        || in_row(fs, q, r, level, a)) by {
        row_cut_any(row, mid, |b: u64| in_tree(fs, q, b, level, a));
    }
}

proof fn row_cut_items(fs: FsV, q: Map<u64, Seq<u8>>, row: Seq<KeyPtr>, level: u8, hi: int, mid: int)
    requires
        row_sound(fs, q, row, level, hi),
        0 < mid < row.len(),
    ensures
        forall|k: Key, d: Seq<u8>| #[trigger]
            row_holds(fs, q, row, level, k, d) == (row_holds(fs, q, row.take(mid), level, k, d)
                || row_holds(fs, q, row.skip(mid), level, k, d)),
{
    let l = row.take(mid);
    let r = row.skip(mid);
    assert forall|j: int| 0 <= j < l.len() implies #[trigger] l[j] == row[j] by {}
    assert forall|j: int| 0 <= j < r.len() implies #[trigger] r[j] == row[mid + j] by {}
    assert forall|k: Key, d: Seq<u8>| #[trigger] row_holds(fs, q, row, level, k, d) == (row_holds(
        fs,
        q,
        l,
        level,
        k,
        d,
    ) || row_holds(fs, q, r, level, k, d)) by {
        row_cut_any(row, mid, |b: u64| holds(fs, q, b, level, k, d));
    }
    assert forall|a: u64| in_row(fs, q, l, level, a) implies !#[trigger] in_row(
        fs,
        q,
        r,
        level,
        a,
    ) by {
        let i = choose|i: int|
            0 <= i < l.len() && in_tree(fs, q, (#[trigger] l[i]).blockptr, level, a);
        assert(in_tree(fs, q, row[i].blockptr, level, a));
        if in_row(fs, q, r, level, a) {
            let j = choose|j: int|
                0 <= j < r.len() && in_tree(fs, q, (#[trigger] r[j]).blockptr, level, a);
            assert(!in_tree(fs, q, row[mid + j].blockptr, level, a));
        }
    }
}

/// A sound row cut in two gives two sound rows without a block in common.
pub proof fn row_cut(fs: FsV, q: Map<u64, Seq<u8>>, row: Seq<KeyPtr>, level: u8, hi: int, mid: int)
    requires
        row_sound(fs, q, row, level, hi),
        0 < mid < row.len(),
    ensures
        row_sound(fs, q, row.take(mid), level, row[mid].key.ord()),
        row_sound(fs, q, row.skip(mid), level, hi),
        forall|a: u64| #[trigger]
            in_row(fs, q, row, level, a) == (in_row(fs, q, row.take(mid), level, a) || in_row(
                fs,
                q,
                row.skip(mid),
                level,
                a,
            )),
        forall|a: u64|
            in_row(fs, q, row.take(mid), level, a) ==> !#[trigger] in_row(
                fs,
                q,
                row.skip(mid),
                level,
                a,
            ),
        forall|k: Key, d: Seq<u8>| #[trigger]
            row_holds(fs, q, row, level, k, d) == (row_holds(fs, q, row.take(mid), level, k, d)
                || row_holds(fs, q, row.skip(mid), level, k, d)),
{
    row_cut_sound(fs, q, row, level, hi, mid);
    row_cut_blocks(fs, q, row, level, hi, mid);
    row_cut_items(fs, q, row, level, hi, mid);
}

pub proof fn row_cut_any(row: Seq<KeyPtr>, mid: int, f: spec_fn(u64) -> bool)
    requires
        0 <= mid <= row.len(),
    ensures
        (exists|i: int| 0 <= i < row.len() && f((#[trigger] row[i]).blockptr)) == ((exists|i: int|
            0 <= i < row.take(mid).len() && f((#[trigger] row.take(mid)[i]).blockptr))
            || exists|i: int|
            0 <= i < row.skip(mid).len() && f((#[trigger] row.skip(mid)[i]).blockptr)),
{
    let l = row.take(mid);
    let r = row.skip(mid);
    if exists|i: int| 0 <= i < row.len() && f((#[trigger] row[i]).blockptr) {
        let i = choose|i: int| 0 <= i < row.len() && f((#[trigger] row[i]).blockptr);
        if i < mid {
            assert(f(l[i].blockptr));
        } else {
            assert(f(r[i - mid].blockptr));
        }
    }
    if exists|i: int| 0 <= i < l.len() && f((#[trigger] l[i]).blockptr) {
        let i = choose|i: int| 0 <= i < l.len() && f((#[trigger] l[i]).blockptr);
        assert(f(row[i].blockptr));
    }
    if exists|i: int| 0 <= i < r.len() && f((#[trigger] r[i]).blockptr) {
        let i = choose|i: int| 0 <= i < r.len() && f((#[trigger] r[i]).blockptr);
        assert(f(row[mid + i].blockptr));
    }
}

/// A node over a sound row that does not hold the node itself.
pub proof fn node_over_row(
    fs: FsV,
    q: Map<u64, Seq<u8>>,
    t: u64,
    level: u8,
    row: Seq<KeyPtr>,
    hi: int,
)
    requires
        level > 0,
        node_at(fs, q, t) matches Ok(n) && n.level == level && n.ptrs == row,
        row_sound(fs, q, row, (level - 1) as u8, hi),
        !in_row(fs, q, row, (level - 1) as u8, t),
    ensures
        sound(fs, q, t, level, row[0].key.ord(), hi),
        forall|a: u64| #[trigger]
            in_tree(fs, q, t, level, a) == (a == t || in_row(
                fs,
                q,
                row,
                (level - 1) as u8,
                a,
            )),
        forall|k: Key, d: Seq<u8>| #[trigger]
            holds(fs, q, t, level, k, d) == row_holds(fs, q, row, (level - 1) as u8, k, d),
{
    sound_interior(fs, q, t, level, row[0].key.ord(), hi);
}

pub proof fn ptrs_of_entries(row: Seq<KeyPtr>)
    ensures
        entries_of_row(row).map_values(|e: InteriorEntry| ptr_of(e)) == row,
{
    assert(entries_of_row(row).map_values(|e: InteriorEntry| ptr_of(e)) =~= row);
}

} // verus!
