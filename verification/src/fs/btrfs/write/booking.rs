//! The bookkeeping of a change of a tree: what is written, what is given up and
//! what is taken from free space.

use vstd::prelude::*;

use crate::error::Fault;
use crate::fs::btrfs::tree::{parse_node, Key, KeyPtr, NodeV};
use crate::fs::btrfs::volume::{disk_node, node_at, FsV};
use crate::fs::btrfs::write::contents::{
    bound, child_unchanged, in_row, in_tree, sound, sound_interior, tree_over_row, tree_unchanged,
};
use crate::fs::btrfs::write::cow::{spot, write_interior, Cow, CowV};
use crate::fs::btrfs::write::handout::{
    handed_out_once, lies_in, metadata_is_handed_out, offered, tidy,
};
use crate::fs::btrfs::write::node::{emit_leaf, InteriorEntry, InteriorV, LeafV};
use crate::fs::btrfs::write::roundtrip::{interior_round_trip, leaf_node, leaf_round_trip, ptr_of};
use crate::fs::btrfs::write::space::BgV;

verus! {

/// Whether block `a` is among those to write.
pub open spec fn emits(emitted: Seq<(u64, Seq<u8>)>, a: u64) -> bool {
    exists|i: int| 0 <= i < emitted.len() && (#[trigger] emitted[i]).0 == a
}

/// Whether block `a` is among those given up.
pub open spec fn frees(freed: Seq<(u64, u8)>, a: u64) -> bool {
    exists|i: int| 0 <= i < freed.len() && (#[trigger] freed[i]).0 == a
}

/// No block is written twice.
pub open spec fn written_once(emitted: Seq<(u64, Seq<u8>)>) -> bool {
    forall|i: int, j: int|
        0 <= i < j < emitted.len() ==> (#[trigger] emitted[i]).0 != (#[trigger] emitted[j]).0
}

/// The blocks `q` hold all that is to be written.
pub open spec fn carries(q: Map<u64, Seq<u8>>, emitted: Seq<(u64, Seq<u8>)>) -> bool {
    forall|i: int|
        0 <= i < emitted.len() ==> q.contains_key((#[trigger] emitted[i]).0) && q[emitted[i].0]
            == emitted[i].1
}

/// Under `q` every block of the tree at `b` that is neither written anew nor
/// given up is what it was under `p`.
pub open spec fn keeps(
    fs: FsV,
    p: Map<u64, Seq<u8>>,
    q: Map<u64, Seq<u8>>,
    b: u64,
    level: u8,
    emitted: Seq<(u64, Seq<u8>)>,
    freed: Seq<(u64, u8)>,
) -> bool {
    forall|a: u64| #[trigger]
        in_tree(fs, p, b, level, a) && !emits(emitted, a) && !frees(freed, a) ==> node_at(fs, q, a)
            == node_at(fs, p, a)
}

/// No block of the tree at `b` is free.
pub open spec fn unoffered(fs: FsV, p: Map<u64, Seq<u8>>, b: u64, level: u8, space: Seq<BgV>) -> bool {
    forall|a: u64| #[trigger] in_tree(fs, p, b, level, a) ==> offered(space, a as int) == 0
}

/// Child pointers for the nodes that replace another.
pub open spec fn row_of(heads: Seq<(Key, u64)>, generation: u64) -> Seq<KeyPtr> {
    heads.map_values(|h: (Key, u64)| KeyPtr { key: h.0, blockptr: h.1, generation })
}

/// The bookkeeping of a change below `b`: what is written is the tree's own or
/// was free and is not free any more, and what is given up was the tree's own
/// and is not written.
pub open spec fn booked(
    fs: FsV,
    p: Map<u64, Seq<u8>>,
    b: u64,
    level: u8,
    space: Seq<BgV>,
    emitted: Seq<(u64, Seq<u8>)>,
    freed: Seq<(u64, u8)>,
    rest: Seq<BgV>,
) -> bool {
    &&& tidy(rest)
    &&& forall|a: int| #[trigger] offered(rest, a) <= offered(space, a)
    &&& forall|a: u64| #[trigger]
        emits(emitted, a) ==> (in_tree(fs, p, b, level, a) || offered(space, a as int) > 0)
            && offered(rest, a as int) == 0
    &&& forall|a: u64| #[trigger]
        frees(freed, a) ==> in_tree(fs, p, b, level, a) && !emits(emitted, a)
    &&& written_once(emitted)
}

pub proof fn spot_facts(
    c: Cow,
    space: Seq<BgV>,
    level: u8,
    reuse: Option<u64>,
    replaces: Option<u64>,
)
    requires
        tidy(space),
        c.fs.sb.node_size > 0,
    ensures
        spot(c, space, level, reuse, replaces) matches Some(s) ==> {
            &&& tidy(s.space)
            &&& forall|a: int| #[trigger] offered(s.space, a) <= offered(space, a)
            &&& reuse matches Some(b) ==> s.target == b && s.space == space && s.freed.len() == 0
            &&& reuse is None ==> offered(space, s.target as int) == 1 && offered(
                s.space,
                s.target as int,
            ) == 0
            &&& reuse is None ==> s.freed == match replaces {
                Some(o) => seq![(o, level)],
                None => Seq::<(u64, u8)>::empty(),
            }
        },
{
    if reuse is None {
        metadata_is_handed_out(space, c.fs.sb.node_size, c.owner);
        if let Some(s) = spot(c, space, level, reuse, replaces) {
            handed_out_once(space, s.space, s.target as int, c.fs.sb.node_size as int);
            assert(lies_in(s.target as int, s.target as int, c.fs.sb.node_size as int));
            assert forall|a: int| #[trigger] offered(s.space, a) <= offered(space, a) by {
                if lies_in(a, s.target as int, c.fs.sb.node_size as int) {
                    assert(offered(space, a) == 1);
                }
            }
        }
    }
}

pub proof fn emits_pushed(emitted: Seq<(u64, Seq<u8>)>, t: u64, raw: Seq<u8>, a: u64)
    ensures
        emits(emitted.push((t, raw)), a) == (emits(emitted, a) || a == t),
{
    let e = emitted.push((t, raw));
    if emits(emitted, a) {
        let i = choose|i: int| 0 <= i < emitted.len() && (#[trigger] emitted[i]).0 == a;
        assert(e[i].0 == a);
    }
    if a == t {
        assert(e[emitted.len() as int].0 == a);
    }
}

pub proof fn frees_joined(x: Seq<(u64, u8)>, y: Seq<(u64, u8)>, a: u64)
    ensures
        frees(x + y, a) == (frees(x, a) || frees(y, a)),
{
    let z = x + y;
    if frees(x, a) {
        let i = choose|i: int| 0 <= i < x.len() && (#[trigger] x[i]).0 == a;
        assert(z[i].0 == a);
    }
    if frees(y, a) {
        let i = choose|i: int| 0 <= i < y.len() && (#[trigger] y[i]).0 == a;
        assert(z[x.len() + i].0 == a);
    }
    if frees(z, a) {
        let i = choose|i: int| 0 <= i < z.len() && (#[trigger] z[i]).0 == a;
        if i < x.len() {
            assert(x[i].0 == a);
        } else {
            assert(y[i - x.len()].0 == a);
        }
    }
}

pub proof fn frees_one(b: u64, level: u8, a: u64)
    ensures
        frees(seq![(b, level)], a) == (a == b),
{
    if a == b {
        assert(seq![(b, level)][0].0 == a);
    }
}

/// The header of a node that was read.
pub proof fn header_of_node(fs: FsV, p: Map<u64, Seq<u8>>, b: u64)
    requires
        node_at(fs, p, b) is Ok,
    ensures
        ({
            let n = node_at(fs, p, b)->Ok_0;
            &&& n.metadata_uuid == fs.sb.metadata_uuid
            &&& n.metadata_uuid.len() == 16
            &&& n.chunk_tree_uuid.len() == 16
        }),
{
    reveal(node_at);
    reveal(disk_node);
    reveal(parse_node);
}

/// A leaf that was written, read under blocks that hold it.
pub proof fn leaf_stands(c: Cow, q: Map<u64, Seq<u8>>, l: LeafV, raw: Seq<u8>)
    requires
        emit_leaf(l, c.fs.sb.node_size) == Ok::<Seq<u8>, Fault>(raw),
        l.csum_type == c.fs.sb.csum_type,
        l.metadata_uuid == c.fs.sb.metadata_uuid,
        l.metadata_uuid.len() == 16,
        l.chunk_tree_uuid.len() == 16,
        q.contains_key(l.bytenr),
        q[l.bytenr] == raw,
    ensures
        node_at(c.fs, q, l.bytenr) == Ok::<NodeV, Fault>(leaf_node(l)),
{
    reveal(node_at);
    leaf_round_trip(l, c.fs.sb.node_size);
}

/// An interior node that was written, read under blocks that hold it.
pub proof fn interior_stands(
    c: Cow,
    q: Map<u64, Seq<u8>>,
    h: InteriorV,
    target: u64,
    entries: Seq<InteriorEntry>,
    raw: Seq<u8>,
)
    requires
        write_interior(c, h, target, entries) == Ok::<Seq<u8>, Fault>(raw),
        h.level > 0,
        h.csum_type == c.fs.sb.csum_type,
        h.metadata_uuid == c.fs.sb.metadata_uuid,
        h.metadata_uuid.len() == 16,
        h.chunk_tree_uuid.len() == 16,
        q.contains_key(target),
        q[target] == raw,
    ensures
        node_at(c.fs, q, target) matches Ok(n) && n.level == h.level && n.ptrs
            == entries.map_values(|e: InteriorEntry| ptr_of(e)),
{
    reveal(node_at);
    let n = InteriorV {
        bytenr: target,
        generation: c.generation,
        owner: c.owner,
        entries,
        ..h
    };
    interior_round_trip(n, c.fs.sb.node_size);
}

/// A change of a child is one of the whole tree.
pub proof fn booked_above(
    fs: FsV,
    p: Map<u64, Seq<u8>>,
    b: u64,
    level: u8,
    n: NodeV,
    i: int,
    lo: int,
    hi: int,
    space: Seq<BgV>,
    emitted: Seq<(u64, Seq<u8>)>,
    freed: Seq<(u64, u8)>,
    rest: Seq<BgV>,
)
    requires
        level > 0,
        node_at(fs, p, b) == Ok::<NodeV, Fault>(n),
        sound(fs, p, b, level, lo, hi),
        0 <= i < n.ptrs.len(),
        unoffered(fs, p, b, level, space),
        booked(
            fs,
            p,
            n.ptrs[i].blockptr,
            (level - 1) as u8,
            space,
            emitted,
            freed,
            rest,
        ),
    ensures
        booked(fs, p, b, level, space, emitted, freed, rest),
        !emits(emitted, b),
        !frees(freed, b),
        offered(rest, b as int) == 0,
{
    let below = (level - 1) as u8;
    let cb = n.ptrs[i].blockptr;
    sound_interior(fs, p, b, level, lo, hi);
    assert(!in_tree(fs, p, cb, below, b)) by {
        if in_tree(fs, p, cb, below, b) {
            assert(in_row(fs, p, n.ptrs, below, b));
        }
    }
    assert(in_tree(fs, p, b, level, b));
    assert(offered(space, b as int) == 0);
    assert(offered(rest, b as int) <= offered(space, b as int));
    assert forall|a: u64| in_tree(fs, p, cb, below, a) implies #[trigger] in_tree(
        fs,
        p,
        b,
        level,
        a,
    ) by {
        assert(n.ptrs[i].blockptr == cb);
    }
    assert forall|a: u64| #[trigger] emits(emitted, a) implies (in_tree(fs, p, b, level, a)
        || offered(space, a as int) > 0) && offered(rest, a as int) == 0 by {}
    assert forall|a: u64| #[trigger] frees(freed, a) implies in_tree(fs, p, b, level, a)
        && !emits(emitted, a) by {}
}

/// One more node written in the place of `b` or in a new block.
pub proof fn booked_more(
    c: Cow,
    b: u64,
    level: u8,
    space: Seq<BgV>,
    emitted: Seq<(u64, Seq<u8>)>,
    freed: Seq<(u64, u8)>,
    rest: Seq<BgV>,
    at: u8,
    reuse: Option<u64>,
    replaces: Option<u64>,
    raw: Seq<u8>,
)
    requires
        c.fs.sb.node_size > 0,
        unoffered(c.fs, c.pending, b, level, space),
        booked(c.fs, c.pending, b, level, space, emitted, freed, rest),
        spot(c, rest, at, reuse, replaces) is Some,
        reuse matches Some(x) ==> x == b && !emits(emitted, b) && !frees(freed, b),
        replaces matches Some(x) ==> x == b && !emits(emitted, b),
        offered(rest, b as int) == 0,
    ensures
        ({
            let s = spot(c, rest, at, reuse, replaces)->Some_0;
            &&& booked(
                c.fs,
                c.pending,
                b,
                level,
                space,
                emitted.push((s.target, raw)),
                freed + s.freed,
                s.space,
            )
            &&& !emits(emitted, s.target)
            &&& offered(s.space, s.target as int) == 0
            &&& reuse is None ==> offered(rest, s.target as int) == 1 && s.target != b
        }),
{
    let s = spot(c, rest, at, reuse, replaces)->Some_0;
    let more = emitted.push((s.target, raw));
    spot_facts(c, rest, at, reuse, replaces);
    assert(in_tree(c.fs, c.pending, b, level, b));
    assert(offered(space, b as int) == 0);
    assert(!emits(emitted, s.target)) by {
        if emits(emitted, s.target) {
            assert(offered(rest, s.target as int) == 0);
        }
    }
    assert(reuse is None ==> s.target != b);
    assert forall|a: int| #[trigger] offered(s.space, a) <= offered(space, a) by {
        assert(offered(rest, a) <= offered(space, a));
    }
    assert forall|a: u64| #[trigger] emits(more, a) implies (in_tree(
        c.fs,
        c.pending,
        b,
        level,
        a,
    ) || offered(space, a as int) > 0) && offered(s.space, a as int) == 0 by {
        emits_pushed(emitted, s.target, raw, a);
        if a == s.target {
            assert(offered(rest, a as int) <= offered(space, a as int));
        } else {
            assert(emits(emitted, a));
            assert(offered(s.space, a as int) <= offered(rest, a as int));
        }
    }
    assert forall|a: u64| #[trigger] frees(freed + s.freed, a) implies in_tree(
        c.fs,
        c.pending,
        b,
        level,
        a,
    ) && !emits(more, a) by {
        frees_joined(freed, s.freed, a);
        frees_one(b, at, a);
        emits_pushed(emitted, s.target, raw, a);
        if frees(freed, a) {
            if a == s.target && reuse is None {
                assert(offered(rest, a as int) <= offered(space, a as int));
                assert(offered(space, a as int) == 0);
            }
        } else {
            assert(a == b);
        }
    }
    assert(written_once(more)) by {
        assert forall|i: int, j: int| 0 <= i < j < more.len() implies (#[trigger] more[i]).0 != (
        #[trigger] more[j]).0 by {
            if j < emitted.len() {
                assert(emitted[i].0 != emitted[j].0);
            } else {
                assert(emitted[i].0 == more[i].0);
            }
        }
    }
}

pub proof fn booked_swapped(
    fs: FsV,
    p: Map<u64, Seq<u8>>,
    b: u64,
    level: u8,
    space: Seq<BgV>,
    emitted: Seq<(u64, Seq<u8>)>,
    x: (u64, Seq<u8>),
    y: (u64, Seq<u8>),
    freed: Seq<(u64, u8)>,
    rest: Seq<BgV>,
)
    requires
        booked(fs, p, b, level, space, emitted.push(x).push(y), freed, rest),
    ensures
        booked(fs, p, b, level, space, emitted.push(y).push(x), freed, rest),
{
    let e = emitted.push(x).push(y);
    let f = emitted.push(y).push(x);
    let n = emitted.len() as int;
    assert forall|a: u64| #[trigger] emits(f, a) == emits(e, a) by {
        emits_pushed(emitted, x.0, x.1, a);
        emits_pushed(emitted.push(x), y.0, y.1, a);
        emits_pushed(emitted, y.0, y.1, a);
        emits_pushed(emitted.push(y), x.0, x.1, a);
    }
    assert(written_once(f)) by {
        assert forall|i: int, j: int| 0 <= i < j < f.len() implies (#[trigger] f[i]).0 != (
        #[trigger] f[j]).0 by {
            let s = if i < n {
                i
            } else {
                n
            };
            if i < n {
                let t = if j < n {
                    j
                } else if j == n {
                    n + 1
                } else {
                    n
                };
                assert(e[i] == f[i]);
                assert(e[t] == f[j]);
                assert(e[i].0 != e[t].0);
            } else {
                assert(e[n].0 != e[n + 1].0);
            }
        }
    }
}

/// Under blocks that keep the rest of the tree, the children other than `i`
/// are unchanged.
pub proof fn siblings_unchanged(
    fs: FsV,
    p: Map<u64, Seq<u8>>,
    q: Map<u64, Seq<u8>>,
    b: u64,
    level: u8,
    n: NodeV,
    i: int,
    j: int,
    lo: int,
    hi: int,
    emitted: Seq<(u64, Seq<u8>)>,
    freed: Seq<(u64, u8)>,
)
    requires
        level > 0,
        node_at(fs, p, b) == Ok::<NodeV, Fault>(n),
        sound(fs, p, b, level, lo, hi),
        0 <= i < n.ptrs.len(),
        0 <= j < n.ptrs.len(),
        i != j,
        keeps(fs, p, q, b, level, emitted, freed),
        forall|a: u64|
            in_tree(fs, p, n.ptrs[j].blockptr, (level - 1) as u8, a) ==> !#[trigger] emits(
                emitted,
                a,
            ) && !frees(freed, a),
    ensures
        child_unchanged(
            fs,
            p,
            q,
            n.ptrs[j].blockptr,
            (level - 1) as u8,
            n.ptrs[j].key.ord(),
            bound(n.ptrs, j, hi),
        ),
{
    let below = (level - 1) as u8;
    let sb = n.ptrs[j].blockptr;
    assert forall|a: u64| #[trigger] in_tree(fs, p, sb, below, a) implies node_at(fs, q, a)
        == node_at(fs, p, a) by {
        tree_over_row(fs, p, b, level, n);
        assert(in_tree(fs, p, n.ptrs[j].blockptr, below, a));
        assert(in_row(fs, p, n.ptrs, below, a));
        assert(in_tree(fs, p, b, level, a));
        assert(!emits(emitted, a));
    }
    tree_unchanged(fs, p, q, sb, below, n.ptrs[j].key.ord(), bound(n.ptrs, j, hi));
}

/// The blocks of a tree's other children are neither written nor given up by a
/// change of child `i`, nor taken from free space.
pub proof fn siblings_untouched(
    fs: FsV,
    p: Map<u64, Seq<u8>>,
    b: u64,
    level: u8,
    n: NodeV,
    i: int,
    j: int,
    lo: int,
    hi: int,
    space: Seq<BgV>,
    emitted: Seq<(u64, Seq<u8>)>,
    freed: Seq<(u64, u8)>,
    rest: Seq<BgV>,
    a: u64,
)
    requires
        level > 0,
        node_at(fs, p, b) == Ok::<NodeV, Fault>(n),
        sound(fs, p, b, level, lo, hi),
        0 <= i < n.ptrs.len(),
        0 <= j < n.ptrs.len(),
        i != j,
        unoffered(fs, p, b, level, space),
        booked(
            fs,
            p,
            n.ptrs[i].blockptr,
            (level - 1) as u8,
            space,
            emitted,
            freed,
            rest,
        ),
        in_tree(fs, p, n.ptrs[j].blockptr, (level - 1) as u8, a),
    ensures
        !emits(emitted, a),
        !frees(freed, a),
        a != b,
        in_tree(fs, p, b, level, a),
        offered(space, a as int) == 0,
        offered(rest, a as int) == 0,
        !in_tree(fs, p, n.ptrs[i].blockptr, (level - 1) as u8, a),
{
    let below = (level - 1) as u8;
    sound_interior(fs, p, b, level, lo, hi);
    assert(in_row(fs, p, n.ptrs, below, a)) by {
        assert(0 <= j < n.ptrs.len() && in_tree(fs, p, n.ptrs[j].blockptr, below, a));
    }
    assert(in_tree(fs, p, b, level, a));
    assert(offered(rest, a as int) <= offered(space, a as int));
    assert(n.ptrs[i].blockptr == n.ptrs[i].blockptr);
    assert(!in_tree(fs, p, n.ptrs[i].blockptr, below, a));
    assert(emits(emitted, a) ==> in_tree(fs, p, n.ptrs[i].blockptr, below, a) || offered(
        space,
        a as int,
    ) > 0);
}

pub proof fn child_unoffered(c: Cow, space: Seq<BgV>, b: u64, level: u8, n: NodeV, i: int)
    requires
        level > 0,
        node_at(c.fs, c.pending, b) == Ok::<NodeV, Fault>(n),
        0 <= i < n.ptrs.len(),
        unoffered(c.fs, c.pending, b, level, space),
    ensures
        unoffered(c.fs, c.pending, n.ptrs[i].blockptr, (level - 1) as u8, space),
{
    let below = (level - 1) as u8;
    tree_over_row(c.fs, c.pending, b, level, n);
    assert forall|a: u64| #[trigger]
        in_tree(c.fs, c.pending, n.ptrs[i].blockptr, below, a) implies offered(space, a as int)
        == 0 by {
        assert(in_row(c.fs, c.pending, n.ptrs, below, a));
        assert(in_tree(c.fs, c.pending, b, level, a));
    }
}

/// Behind the last key.
pub open spec fn keys_end() -> int {
    0x1_0000_0000_0000_0000int * 0x100_0000_0000_0000_0000int
}

pub proof fn key_in_range(k: Key)
    ensures
        0 <= k.ord() < keys_end(),
{
}

/// What a change of a whole tree comes to: its new root, under blocks `q`,
/// stands over a sound tree whose blocks are its own and not free.
pub open spec fn regrown(
    fs: FsV,
    p: Map<u64, Seq<u8>>,
    q: Map<u64, Seq<u8>>,
    root: u64,
    level: u8,
    space: Seq<BgV>,
    r: CowV,
) -> bool {
    &&& sound(fs, q, r.root, r.level, 0, keys_end())
    &&& forall|a: u64| #[trigger]
        in_tree(fs, q, r.root, r.level, a) ==> offered(r.space, a as int) == 0 && !frees(
            r.freed,
            a,
        ) && (in_tree(fs, p, root, level, a) || offered(space, a as int) > 0)
}

} // verus!
