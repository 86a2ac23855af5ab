//! A tree is a map from keys to payloads, and changes of the tree are changes
//! of the map.

use vstd::prelude::*;

use crate::error::Fault;
use crate::fs::btrfs::search::{find_item, MAX_DEPTH};
use crate::fs::btrfs::tree::{Item, Key};
use crate::fs::btrfs::volume::{node_at, FsV};
use crate::fs::btrfs::write::booking::{
    booked, carries, emits, frees, frees_joined, frees_one, keeps, keys_end, regrown, unoffered,
    written_once,
};
use crate::fs::btrfs::write::contents::{
    held_with_one, holds, in_tree, search_finds, sound, tree_unchanged,
};
use crate::fs::btrfs::write::cow::{tree_edit, tree_insert, Cow, CowV};
use crate::fs::btrfs::write::edit::{edited, EditV};
use crate::fs::btrfs::write::editing::{
    after_edit, becomes, edit_was_possible, tree_edit_booked, tree_edit_reworked,
};
use crate::fs::btrfs::write::handout::{offered, tidy};
use crate::fs::btrfs::write::insertion::{
    insert_was_absent, tree_insert_booked, tree_insert_grafted,
};
use crate::fs::btrfs::write::space::{free_block, pin_bg, BgV};
use crate::fs::btrfs::write::workspace::{
    absorbed, claim_all, drop_blocks, edit_step, insert_step, overlaid, owned, recorded, step,
    steps, OpV, StateV,
};
use crate::seqs::{first_idx, first_idx_props};

verus! {

/// A tree that an unfinished transaction can change: it is sound, and nothing
/// of it is free.
pub open spec fn orderly(fs: FsV, s: StateV, root: (u64, u8)) -> bool {
    &&& tidy(s.space)
    &&& sound(fs, s.pending, root.0, root.1, 0, keys_end())
    &&& unoffered(fs, s.pending, root.0, root.1, s.space)
}

/// What a tree holds, as a map.
pub open spec fn contents(fs: FsV, s: StateV, root: (u64, u8)) -> Map<Key, Seq<u8>> {
    Map::new(
        |k: Key| exists|d: Seq<u8>| #[trigger] holds(fs, s.pending, root.0, root.1, k, d),
        |k: Key| choose|d: Seq<u8>| #[trigger] holds(fs, s.pending, root.0, root.1, k, d),
    )
}

/// A key is held with one payload at most.
proof fn held_once(fs: FsV, s: StateV, root: (u64, u8), k: Key, d: Seq<u8>, e: Seq<u8>)
    requires
        sound(fs, s.pending, root.0, root.1, 0, keys_end()),
        holds(fs, s.pending, root.0, root.1, k, d),
        holds(fs, s.pending, root.0, root.1, k, e),
    ensures
        d == e,
{
    held_with_one(fs, s.pending, root.0, root.1, 0, keys_end(), k, d, e);
}

/// The map says what the tree holds.
pub proof fn contents_hold(fs: FsV, s: StateV, root: (u64, u8), k: Key, d: Seq<u8>)
    requires
        sound(fs, s.pending, root.0, root.1, 0, keys_end()),
    ensures
        holds(fs, s.pending, root.0, root.1, k, d) == (contents(fs, s, root).contains_key(k)
            && contents(fs, s, root)[k] == d),
{
    let m = contents(fs, s, root);
    if m.contains_key(k) {
        let e = choose|e: Seq<u8>| #[trigger] holds(fs, s.pending, root.0, root.1, k, e);
        assert(m[k] == e);
        if holds(fs, s.pending, root.0, root.1, k, d) {
            held_once(fs, s, root, k, d, e);
        }
    }
}

/// A search in an orderly tree gives what the map has under the key.
pub proof fn search_reads_contents(fs: FsV, s: StateV, root: (u64, u8), k: Key)
    requires
        sound(fs, s.pending, root.0, root.1, 0, keys_end()),
        root.1 < MAX_DEPTH,
    ensures
        find_item(fs, s.pending, root.0, k) == Ok::<Option<Seq<u8>>, Fault>(
            if contents(fs, s, root).contains_key(k) {
                Some(contents(fs, s, root)[k])
            } else {
                None
            },
        ),
{
    search_finds(fs, s.pending, root.0, root.1, 0, keys_end(), k, MAX_DEPTH);
    match find_item(fs, s.pending, root.0, k) {
        Ok(Some(d)) => {
            contents_hold(fs, s, root, k, d);
        },
        _ => {},
    }
}

pub proof fn freeing_offers_nothing(m: Seq<BgV>, a: u64, size: u32, x: int)
    ensures
        offered(free_block(m, a, size), x) == offered(m, x),
{
    reveal(free_block);
    let f = |b: BgV| a + size <= u64::MAX && b.contains(a, (a + size) as u64);
    first_idx_props(m, f);
    let g = first_idx(m, f);
    if g < m.len() {
        pinning_offers_nothing(m, g, pin_bg(m[g], a, size as u64), x);
    }
}

/// Changing what a group pins offers nothing new.
pub proof fn pinning_offers_nothing(m: Seq<BgV>, g: int, b: BgV, x: int)
    requires
        0 <= g < m.len(),
        b.free == m[g].free,
    ensures
        offered(m.update(g, b), x) == offered(m, x),
    decreases m.len(),
{
    let u = m.update(g, b);
    if g == m.len() - 1 {
        assert(u.drop_last() =~= m.drop_last());
    } else {
        assert(u.drop_last() =~= m.drop_last().update(g, b));
        pinning_offers_nothing(m.drop_last(), g, b, x);
    }
}

/// Two sets of blocks have the same at `a`.
pub open spec fn same_at(p: Map<u64, Seq<u8>>, q: Map<u64, Seq<u8>>, a: u64) -> bool {
    p.contains_key(a) == q.contains_key(a) && (p.contains_key(a) ==> p[a] == q[a])
}

pub proof fn node_same(fs: FsV, p: Map<u64, Seq<u8>>, q: Map<u64, Seq<u8>>, a: u64)
    requires
        same_at(p, q, a),
    ensures
        node_at(fs, p, a) == node_at(fs, q, a),
{
    reveal(node_at);
}

proof fn dropping_touches_freed(s: StateV, freed: Seq<(u64, u8)>, node_size: u32, a: u64, x: int)
    ensures
        !frees(freed, a) ==> same_at(drop_blocks(s, freed, node_size).pending, s.pending, a),
        offered(drop_blocks(s, freed, node_size).space, x) == offered(s.space, x),
    decreases freed.len(),
{
    if freed.len() > 0 {
        let front = freed.drop_last();
        dropping_touches_freed(s, front, node_size, a, x);
        let t = drop_blocks(s, front, node_size);
        freeing_offers_nothing(t.space, freed.last().0, node_size, x);
        assert(freed =~= front + seq![freed.last()]);
        frees_joined(front, seq![freed.last()], a);
        frees_one(freed.last().0, freed.last().1, a);
    }
}

proof fn overlaid_carries(p: Map<u64, Seq<u8>>, emitted: Seq<(u64, Seq<u8>)>)
    requires
        written_once(emitted),
    ensures
        carries(overlaid(p, emitted), emitted),
        forall|a: u64| !emits(emitted, a) ==> #[trigger] same_at(overlaid(p, emitted), p, a),
    decreases emitted.len(),
{
    if emitted.len() > 0 {
        let front = emitted.drop_last();
        let q = overlaid(p, front);
        assert(written_once(front)) by {
            assert forall|i: int, j: int| 0 <= i < j < front.len() implies (
            #[trigger] front[i]).0 != (#[trigger] front[j]).0 by {
                assert(emitted[i].0 != emitted[j].0);
            }
        }
        overlaid_carries(p, front);
        let last = emitted.last();
        assert forall|i: int| 0 <= i < emitted.len() implies overlaid(p, emitted).contains_key(
            (#[trigger] emitted[i]).0,
        ) && overlaid(p, emitted)[emitted[i].0] == emitted[i].1 by {
            if i < front.len() {
                assert(front[i] == emitted[i]);
                assert(emitted[i].0 != emitted[emitted.len() - 1].0);
            }
        }
        assert forall|a: u64| !emits(emitted, a) implies #[trigger] same_at(
            overlaid(p, emitted),
            p,
            a,
        ) by {
            if emits(front, a) {
                let i = choose|i: int| 0 <= i < front.len() && (#[trigger] front[i]).0 == a;
                assert(emitted[i].0 == a);
            }
            assert(emitted[emitted.len() - 1].0 != a);
            assert(same_at(q, p, a));
        }
    }
}

/// What booking a change of the tree at `root` does to the state.
pub open spec fn taken_in(
    fs: FsV,
    s: StateV,
    t: StateV,
    root: u64,
    level: u8,
    r: CowV,
) -> bool {
    &&& carries(t.pending, r.emitted)
    &&& keeps(fs, s.pending, t.pending, root, level, r.emitted, r.freed)
    &&& forall|a: int| #[trigger] offered(t.space, a) == offered(r.space, a)
    &&& forall|a: u64|
        !emits(r.emitted, a) && !frees(r.freed, a) ==> #[trigger] node_at(fs, t.pending, a)
            == node_at(fs, s.pending, a)
}

/// Booking a change takes it in.
pub proof fn absorbed_takes_in(
    fs: FsV,
    s: StateV,
    root: u64,
    level: u8,
    r: CowV,
    node_size: u32,
    owner: u64,
)
    requires
        written_once(r.emitted),
        absorbed(s, r, node_size, owner) is Ok,
    ensures
        ({
            let (t, at) = absorbed(s, r, node_size, owner)->Ok_0;
            &&& taken_in(fs, s, t, root, level, r)
            &&& at == (r.root, r.level)
        }),
{
    let (t, at) = absorbed(s, r, node_size, owner)->Ok_0;
    let base = match s.ledger {
        None => s,
        Some(m) => StateV {
            ledger: Some(
                claim_all(
                    m,
                    r.allocated,
                    node_size,
                )->Some_0,
            ),
            ..s
        },
    };
    assert(t == recorded(base, r, node_size, owner));
    let a0 = StateV {
        add: base.add + owned(r.allocated, owner),
        space: r.space,
        ..base
    };
    let d = drop_blocks(a0, r.freed, node_size);
    overlaid_carries(d.pending, r.emitted);
    assert forall|a: int| #[trigger] offered(t.space, a) == offered(r.space, a) by {
        dropping_touches_freed(a0, r.freed, node_size, 0, a);
    }
    assert forall|a: u64| !emits(r.emitted, a) && !frees(r.freed, a) implies #[trigger] node_at(
        fs,
        t.pending,
        a,
    ) == node_at(fs, s.pending, a) by {
        dropping_touches_freed(a0, r.freed, node_size, a, 0);
        assert(same_at(t.pending, d.pending, a));
        node_same(fs, t.pending, s.pending, a);
    }
    assert forall|a: u64| #[trigger]
        in_tree(fs, s.pending, root, level, a) && !emits(r.emitted, a) && !frees(
            r.freed,
            a,
        ) implies node_at(fs, t.pending, a) == node_at(fs, s.pending, a) by {}
}

/// A change of the tree at `root` is confined to the tree and to free space: the
/// tree at `at` that comes of it is made of blocks of the old one and of blocks
/// that were free; every block that is neither is what it was and is not free.
pub open spec fn confined(fs: FsV, s: StateV, t: StateV, root: (u64, u8), at: (u64, u8)) -> bool {
    &&& forall|a: u64|
        !in_tree(fs, s.pending, root.0, root.1, a) && offered(s.space, a as int) == 0
            ==> #[trigger] node_at(fs, t.pending, a) == node_at(fs, s.pending, a)
    &&& forall|a: u64| #[trigger]
        in_tree(fs, t.pending, at.0, at.1, a) ==> in_tree(fs, s.pending, root.0, root.1, a)
            || offered(s.space, a as int) > 0
    &&& forall|a: int| #[trigger] offered(t.space, a) <= offered(s.space, a)
}

proof fn change_confined(fs: FsV, s: StateV, t: StateV, root: (u64, u8), r: CowV)
    requires
        booked(fs, s.pending, root.0, root.1, s.space, r.emitted, r.freed, r.space),
        taken_in(fs, s, t, root.0, root.1, r),
        regrown(fs, s.pending, t.pending, root.0, root.1, s.space, r),
    ensures
        confined(fs, s, t, root, (r.root, r.level)),
{
    assert forall|a: u64|
        !in_tree(fs, s.pending, root.0, root.1, a) && offered(s.space, a as int)
            == 0 implies #[trigger] node_at(fs, t.pending, a) == node_at(fs, s.pending, a) by {
        assert(!emits(r.emitted, a));
        assert(!frees(r.freed, a));
    }
    assert forall|a: int| #[trigger] offered(t.space, a) <= offered(s.space, a) by {
        assert(offered(r.space, a) <= offered(s.space, a));
    }
}

/// Two confined changes in a row are one.
pub proof fn confined_twice(
    fs: FsV,
    s: StateV,
    t: StateV,
    u: StateV,
    root: (u64, u8),
    mid: (u64, u8),
    at: (u64, u8),
)
    requires
        confined(fs, s, t, root, mid),
        confined(fs, t, u, mid, at),
    ensures
        confined(fs, s, u, root, at),
{
    assert forall|a: u64|
        !in_tree(fs, s.pending, root.0, root.1, a) && offered(s.space, a as int)
            == 0 implies #[trigger] node_at(fs, u.pending, a) == node_at(fs, s.pending, a) by {
        assert(!in_tree(fs, t.pending, mid.0, mid.1, a));
        assert(offered(t.space, a as int) <= offered(s.space, a as int));
        assert(node_at(fs, t.pending, a) == node_at(fs, s.pending, a));
    }
    assert forall|a: u64| #[trigger] in_tree(fs, u.pending, at.0, at.1, a) implies in_tree(
        fs,
        s.pending,
        root.0,
        root.1,
        a,
    ) || offered(s.space, a as int) > 0 by {
        if !in_tree(fs, t.pending, mid.0, mid.1, a) {
            assert(offered(t.space, a as int) <= offered(s.space, a as int));
        }
    }
    assert forall|a: int| #[trigger] offered(u.space, a) <= offered(s.space, a) by {
        assert(offered(t.space, a) <= offered(s.space, a));
    }
}

/// Doing nothing is confined.
pub proof fn confined_nothing(fs: FsV, s: StateV, root: (u64, u8))
    ensures
        confined(fs, s, s, root, root),
{
}

/// Inserting into an orderly tree: the tree stays orderly, its map gains the
/// item, whose key was not in it, and every other tree is left alone.
pub proof fn insert_on_map(
    fs: FsV,
    generation: u64,
    owner: u64,
    s: StateV,
    root: (u64, u8),
    it: Item,
)
    requires
        fs.sb.node_size > 0,
        root.1 < 255,
        orderly(fs, s, root),
        insert_step(fs, generation, owner, s, root, it) is Ok,
    ensures
        ({
            let (t, r) = insert_step(fs, generation, owner, s, root, it)->Ok_0;
            &&& orderly(fs, t, r)
            &&& r.1 <= root.1 + 1
            &&& !contents(fs, s, root).contains_key(it.key)
            &&& contents(fs, t, r) == contents(fs, s, root).insert(it.key, it.data)
            &&& confined(fs, s, t, root, r)
        }),
{
    let c = Cow { fs, pending: s.pending, owner, generation };
    let r = tree_insert(c, s.space, root.0, root.1, it)->Ok_0;
    let (t, at) = insert_step(fs, generation, owner, s, root, it)->Ok_0;
    tree_insert_booked(c, s.space, root.0, root.1, it);
    absorbed_takes_in(fs, s, root.0, root.1, r, fs.sb.node_size, owner);
    tree_insert_grafted(c, s.space, root.0, root.1, it, t.pending);
    change_confined(fs, s, t, root, r);
    change_orderly(fs, s, t, root, r);
    assert forall|x: Seq<u8>| !#[trigger] holds(fs, s.pending, root.0, root.1, it.key, x) by {
        reveal(tree_insert);
        insert_was_absent(c, s.space, root.0, root.1, 0, keys_end(), it, x);
    }
    let m = contents(fs, s, root);
    let n = contents(fs, t, at);
    assert forall|k: Key| #[trigger] n.contains_key(k) == m.insert(it.key, it.data).contains_key(
        k,
    ) by {
        if n.contains_key(k) {
            let x = choose|x: Seq<u8>| #[trigger] holds(fs, t.pending, at.0, at.1, k, x);
            assert(k == it.key || holds(fs, s.pending, root.0, root.1, k, x));
        }
        if k == it.key {
            assert(holds(fs, t.pending, at.0, at.1, k, it.data));
        } else if m.contains_key(k) {
            let x = choose|x: Seq<u8>| #[trigger] holds(fs, s.pending, root.0, root.1, k, x);
            assert(holds(fs, t.pending, at.0, at.1, k, x));
        }
    }
    assert forall|k: Key| n.contains_key(k) implies #[trigger] n[k] == m.insert(
        it.key,
        it.data,
    )[k] by {
        contents_hold(fs, t, at, k, n[k]);
        if k == it.key {
            assert(holds(fs, t.pending, at.0, at.1, k, it.data));
            contents_hold(fs, t, at, k, it.data);
        } else {
            assert(holds(fs, s.pending, root.0, root.1, k, n[k]));
            contents_hold(fs, s, root, k, n[k]);
        }
    }
    assert(n =~= m.insert(it.key, it.data));
}

proof fn change_orderly(fs: FsV, s: StateV, t: StateV, root: (u64, u8), r: CowV)
    requires
        booked(fs, s.pending, root.0, root.1, s.space, r.emitted, r.freed, r.space),
        taken_in(fs, s, t, root.0, root.1, r),
        regrown(fs, s.pending, t.pending, root.0, root.1, s.space, r),
    ensures
        orderly(fs, t, (r.root, r.level)),
{
    assert(tidy(t.space)) by {
        assert forall|a: int| #[trigger] offered(t.space, a) <= 1 by {
            assert(offered(t.space, a) == offered(r.space, a));
            assert(offered(r.space, a) <= 1);
        }
    }
    assert forall|a: u64| #[trigger]
        in_tree(fs, t.pending, r.root, r.level, a) implies offered(t.space, a as int) == 0 by {
        assert(offered(t.space, a as int) == offered(r.space, a as int));
    }
}

/// A map once the item under `key` was edited.
pub open spec fn map_edited(m: Map<Key, Seq<u8>>, key: Key, e: EditV) -> Map<Key, Seq<u8>> {
    match edited(m[key], e) {
        Ok(Some(x)) => m.insert(key, x),
        _ => m.remove(key),
    }
}

/// Editing an item of an orderly tree: the tree stays orderly, its map changes
/// under the key, which was in it, as the edit says, and every other tree is
/// left alone.
pub proof fn edit_on_map(
    fs: FsV,
    generation: u64,
    owner: u64,
    s: StateV,
    root: (u64, u8),
    key: Key,
    e: EditV,
)
    requires
        fs.sb.node_size > 0,
        orderly(fs, s, root),
        edit_step(fs, generation, owner, s, root, key, e) is Ok,
    ensures
        ({
            let (t, r) = edit_step(fs, generation, owner, s, root, key, e)->Ok_0;
            &&& orderly(fs, t, r)
            &&& r.1 <= root.1
            &&& contents(fs, s, root).contains_key(key)
            &&& edited(contents(fs, s, root)[key], e) is Ok
            &&& contents(fs, t, r) == map_edited(contents(fs, s, root), key, e)
            &&& confined(fs, s, t, root, r)
        }),
{
    let c = Cow { fs, pending: s.pending, owner, generation };
    let r = tree_edit(c, s.space, root.0, root.1, key, e)->Ok_0;
    let (t, at) = edit_step(fs, generation, owner, s, root, key, e)->Ok_0;
    tree_edit_booked(c, s.space, root.0, root.1, key, e);
    absorbed_takes_in(fs, s, root.0, root.1, r, fs.sb.node_size, owner);
    tree_edit_reworked(c, s.space, root.0, root.1, key, e, t.pending);
    change_confined(fs, s, t, root, r);
    change_orderly(fs, s, t, root, r);
    let m = contents(fs, s, root);
    let n = contents(fs, t, at);
    let o = choose|o: Seq<u8>| #[trigger] holds(fs, s.pending, root.0, root.1, key, o);
    contents_hold(fs, s, root, key, o);
    assert(m[key] == o);
    assert(edited(o, e) is Ok) by {
        reveal(tree_edit);
        edit_was_possible(c, s.space, root.0, root.1, 0, keys_end(), key, e, true, o);
    }
    let want = map_edited(m, key, e);
    assert forall|k: Key, x: Seq<u8>| #[trigger] after_edit(
        fs,
        s.pending,
        root.0,
        root.1,
        key,
        e,
        k,
        x,
    ) == (want.contains_key(k) && want[k] == x) by {
        contents_hold(fs, s, root, k, x);
        if k == key {
            if becomes(fs, s.pending, root.0, root.1, key, e, x) {
                let u = choose|u: Seq<u8>| #[trigger]
                    holds(fs, s.pending, root.0, root.1, key, u) && edited(u, e) == Ok::<
                        Option<Seq<u8>>,
                        Fault,
                    >(Some(x));
                held_once(fs, s, root, key, o, u);
            }
            if edited(o, e) == Ok::<Option<Seq<u8>>, Fault>(Some(x)) {
                assert(becomes(fs, s.pending, root.0, root.1, key, e, x));
            }
        }
    }
    assert forall|k: Key| #[trigger] n.contains_key(k) == want.contains_key(k) by {
        if n.contains_key(k) {
            let x = choose|x: Seq<u8>| #[trigger] holds(fs, t.pending, at.0, at.1, k, x);
            assert(after_edit(fs, s.pending, root.0, root.1, key, e, k, x));
        }
        if want.contains_key(k) {
            assert(after_edit(fs, s.pending, root.0, root.1, key, e, k, want[k]));
            assert(holds(fs, t.pending, at.0, at.1, k, want[k]));
        }
    }
    assert forall|k: Key| n.contains_key(k) implies #[trigger] n[k] == want[k] by {
        contents_hold(fs, t, at, k, n[k]);
        assert(after_edit(fs, s.pending, root.0, root.1, key, e, k, n[k]));
    }
    assert(n =~= want);
}

/// A map once a tree operation was done on it.
pub open spec fn map_after(m: Map<Key, Seq<u8>>, op: OpV) -> Map<Key, Seq<u8>> {
    match op {
        OpV::Insert { key, data } => m.insert(key, data),
        OpV::Edit { key, edit } => map_edited(m, key, edit),
        OpV::Append { key, data } => if m.contains_key(key) {
            m.insert(key, m[key] + data)
        } else {
            m.insert(key, data)
        },
    }
}

/// A map once tree operations were done on it, one after the other.
pub open spec fn map_after_all(m: Map<Key, Seq<u8>>, ops: Seq<OpV>) -> Map<Key, Seq<u8>>
    decreases ops.len(),
{
    if ops.len() == 0 {
        m
    } else {
        map_after(map_after_all(m, ops.drop_last()), ops.last())
    }
}

/// Whether an operation can be done on a map: only what is missing can be
/// inserted, and only what is there, and is fit for the edit, be edited.
pub open spec fn allowed(m: Map<Key, Seq<u8>>, op: OpV) -> bool {
    match op {
        OpV::Insert { key, .. } => !m.contains_key(key),
        OpV::Edit { key, edit } => m.contains_key(key) && edited(m[key], edit) is Ok,
        OpV::Append { .. } => true,
    }
}

/// Whether operations can be done on a map one after the other.
pub open spec fn all_allowed(m: Map<Key, Seq<u8>>, ops: Seq<OpV>) -> bool
    decreases ops.len(),
{
    ops.len() > 0 ==> all_allowed(m, ops.drop_last()) && allowed(
        map_after_all(m, ops.drop_last()),
        ops.last(),
    )
}

/// One operation on an orderly tree does to its map what it does to a map, and
/// succeeds only if the map allows it.
pub proof fn step_on_map(
    fs: FsV,
    generation: u64,
    owner: u64,
    s: StateV,
    root: (u64, u8),
    op: OpV,
)
    requires
        fs.sb.node_size > 0,
        within_reach(op, root.1),
        orderly(fs, s, root),
        step(fs, generation, owner, s, root, op) is Ok,
    ensures
        ({
            let (t, r) = step(fs, generation, owner, s, root, op)->Ok_0;
            &&& orderly(fs, t, r)
            &&& r.1 <= root.1 + 1
            &&& allowed(contents(fs, s, root), op)
            &&& contents(fs, t, r) == map_after(contents(fs, s, root), op)
            &&& confined(fs, s, t, root, r)
        }),
{
    match op {
        OpV::Insert { key, data } => {
            insert_on_map(fs, generation, owner, s, root, Item { key, data });
        },
        OpV::Edit { key, edit } => {
            edit_on_map(fs, generation, owner, s, root, key, edit);
        },
        OpV::Append { key, data } => {
            search_reads_contents(fs, s, root, key);
            match find_item(fs, s.pending, root.0, key) {
                Ok(None) => {
                    insert_on_map(fs, generation, owner, s, root, Item { key, data });
                },
                Ok(Some(d)) => {
                    let e = EditV::Put { data: d + data, missing: "dir item not found"@ };
                    edit_on_map(fs, generation, owner, s, root, key, e);
                },
                Err(_) => {},
            }
        },
    }
}

/// Whether an operation can be done on a tree of this level: one that has to
/// look the key up first needs a tree that a search descends to the bottom of.
pub open spec fn within_reach(op: OpV, level: u8) -> bool {
    match op {
        OpV::Append { .. } => level < MAX_DEPTH,
        _ => level < 255,
    }
}

/// The tree stays within reach while `ops` are done.
pub open spec fn stays_low(
    fs: FsV,
    generation: u64,
    owner: u64,
    s: StateV,
    root: (u64, u8),
    ops: Seq<OpV>,
) -> bool
    decreases ops.len(),
{
    ops.len() > 0 ==> stays_low(fs, generation, owner, s, root, ops.drop_last()) && (steps(
        fs,
        generation,
        owner,
        s,
        root,
        ops.drop_last(),
    ) matches Ok((_, r)) ==> within_reach(ops.last(), r.1))
}

/// Operations on an orderly tree, one after the other, do to its map what they
/// do to a map, and succeed only if the map allows them.
pub proof fn steps_on_map(
    fs: FsV,
    generation: u64,
    owner: u64,
    s: StateV,
    root: (u64, u8),
    ops: Seq<OpV>,
)
    requires
        fs.sb.node_size > 0,
        orderly(fs, s, root),
        stays_low(fs, generation, owner, s, root, ops),
        steps(fs, generation, owner, s, root, ops) is Ok,
    ensures
        ({
            let (t, r) = steps(fs, generation, owner, s, root, ops)->Ok_0;
            &&& orderly(fs, t, r)
            &&& all_allowed(contents(fs, s, root), ops)
            &&& contents(fs, t, r) == map_after_all(contents(fs, s, root), ops)
            &&& confined(fs, s, t, root, r)
        }),
    decreases ops.len(),
{
    if ops.len() > 0 {
        let front = ops.drop_last();
        steps_on_map(fs, generation, owner, s, root, front);
        let (t, at) = steps(fs, generation, owner, s, root, front)->Ok_0;
        step_on_map(fs, generation, owner, t, at, ops.last());
        let (u, r) = step(fs, generation, owner, t, at, ops.last())->Ok_0;
        confined_twice(fs, s, t, u, root, at, r);
    } else {
        confined_nothing(fs, s, root);
    }
}

/// A tree that is left alone is what it was: it is sound, its map is the same,
/// and a search in it gives the same.
pub proof fn left_alone(
    fs: FsV,
    s: StateV,
    t: StateV,
    root: (u64, u8),
    at: (u64, u8),
    other: (u64, u8),
)
    requires
        confined(fs, s, t, root, at),
        sound(fs, s.pending, other.0, other.1, 0, keys_end()),
        unoffered(fs, s.pending, other.0, other.1, s.space),
        forall|a: u64| #[trigger]
            in_tree(fs, s.pending, other.0, other.1, a) ==> !in_tree(
                fs,
                s.pending,
                root.0,
                root.1,
                a,
            ),
    ensures
        sound(fs, t.pending, other.0, other.1, 0, keys_end()),
        unoffered(fs, t.pending, other.0, other.1, t.space),
        contents(fs, t, other) == contents(fs, s, other),
        other.1 < MAX_DEPTH ==> forall|k: Key| #[trigger]
            find_item(fs, t.pending, other.0, k) == find_item(fs, s.pending, other.0, k),
{
    assert forall|a: u64| #[trigger]
        in_tree(fs, s.pending, other.0, other.1, a) implies node_at(fs, t.pending, a) == node_at(
        fs,
        s.pending,
        a,
    ) by {
        assert(!in_tree(fs, s.pending, root.0, root.1, a));
    }
    tree_unchanged(fs, s.pending, t.pending, other.0, other.1, 0, keys_end());
    assert forall|a: u64| #[trigger]
        in_tree(fs, t.pending, other.0, other.1, a) implies offered(t.space, a as int) == 0 by {
        assert(in_tree(fs, s.pending, other.0, other.1, a));
        assert(offered(t.space, a as int) <= offered(s.space, a as int));
    }
    let m = contents(fs, s, other);
    let n = contents(fs, t, other);
    assert forall|k: Key| #[trigger] n.contains_key(k) == m.contains_key(k) by {
        if n.contains_key(k) {
            let d = choose|d: Seq<u8>| #[trigger] holds(fs, t.pending, other.0, other.1, k, d);
            assert(holds(fs, s.pending, other.0, other.1, k, d));
        }
        if m.contains_key(k) {
            let d = choose|d: Seq<u8>| #[trigger] holds(fs, s.pending, other.0, other.1, k, d);
            assert(holds(fs, t.pending, other.0, other.1, k, d));
        }
    }
    assert forall|k: Key| n.contains_key(k) implies #[trigger] n[k] == m[k] by {
        contents_hold(fs, t, other, k, n[k]);
        assert(holds(fs, s.pending, other.0, other.1, k, n[k]));
        contents_hold(fs, s, other, k, n[k]);
    }
    assert(n =~= m);
    if other.1 < MAX_DEPTH {
        assert forall|k: Key| #[trigger] find_item(fs, t.pending, other.0, k) == find_item(
            fs,
            s.pending,
            other.0,
            k,
        ) by {
            search_reads_contents(fs, s, other, k);
            search_reads_contents(fs, t, other, k);
        }
    }
}

} // verus!
