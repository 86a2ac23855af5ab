//! When no two writes of a commit share a byte of the device, and which blocks
//! they leave alone: it is enough that they lie apart in the address space.

use vstd::prelude::*;

use crate::device::DeviceOp;
use crate::error::{Fault, Outcome};
use crate::fs::btrfs::blocks::{addresses_of, lists_exists};
use crate::fs::btrfs::chunk::{
    chunk_holding, chunk_holding_covers, locate, locate_reaches, ChunkV, BLOCK_GROUP_DATA,
};
use crate::fs::btrfs::roots::optional_root;
use crate::fs::btrfs::search::MAX_DEPTH;
use crate::fs::btrfs::superblock::{
    super_copy, super_fields, SuperV, SUPER_OFFSET_0, SUPER_OFFSET_1, SUPER_OFFSET_2, SUPER_SIZE,
};
use crate::fs::btrfs::tree::{csum_field_len, CSUM_TREE_OBJECTID, FS_TREE_OBJECTID};
use crate::fs::btrfs::volume::FsV;
use crate::fs::btrfs::write::change::{commits_clear, files_of, freed_spans_offer_nothing};
use crate::fs::btrfs::write::claiming::{
    all_claimed, claimed, claimed_still, finish_claims, steps_claim,
};
use crate::fs::btrfs::write::commit::{
    block_script, body_script, commit_script, committed, copy_script, data_script, flush_script,
    next_super, super_script, template_of, tree_script,
};
use crate::fs::btrfs::write::contents::in_tree;
use crate::fs::btrfs::write::converge::{finalized, only_files, Lookups};
use crate::fs::btrfs::write::csum_delete::trim_plan;
use crate::fs::btrfs::write::exclude::{in_ranges, mirrors_are_excluded, sb_exclusions};
use crate::fs::btrfs::write::filling::sectors_cover;
use crate::fs::btrfs::write::handout::{
    first_fit_hands_out, handed_out_once, lies_in, offered, tidy,
};
use crate::fs::btrfs::write::landing::{
    chunks_apart, copies_go_on, copy_at, lands_on, one_address,
};
use crate::fs::btrfs::write::load::space_on;
use crate::fs::btrfs::write::payload::csum_tiles;
use crate::fs::btrfs::write::readback::{clear_cut, kept_by, touches, untouched};
use crate::fs::btrfs::write::space::BgV;
use crate::fs::btrfs::write::tiling::free_space_means;
use crate::fs::btrfs::write::txn::data::{
    csum_ops, csums_added, data_changes, data_placed, data_written, disk_len, with_extent,
};
use crate::fs::btrfs::write::txn::delete::{drop_changes, spans_lost};
use crate::fs::btrfs::write::txn::{files_changed, files_root, TxnV};
use crate::fs::btrfs::write::unlink::{data_dropped, span_pairs, spans_freed, Span};
use crate::fs::btrfs::write::workspace::{fresh_state, steps, OpV, StateV};

verus! {

/// The transaction writes `d` at the address `at`.
pub open spec fn writes_at(t: TxnV, at: u64, d: Seq<u8>) -> bool {
    ||| t.data.contains((at, d))
    ||| t.blocks.contains_key(at) && t.blocks[at] == d
}

/// The `n` bytes at `at` lie in one chunk.
pub open spec fn in_one_chunk(chunks: Seq<ChunkV>, at: u64, n: int) -> bool {
    locate(chunks, at) matches Ok((_, run)) ==> n <= run
}

/// None of the `n` bytes at `at` is withheld for a superblock copy.
pub open spec fn off_supers(chunks: Seq<ChunkV>, at: u64, n: int) -> bool {
    forall|x: int| at <= x < at + n ==> !#[trigger] in_ranges(sb_exclusions(chunks), x)
}

/// No stripe begins inside a superblock copy.
pub open spec fn no_stripe_in_super(chunks: Seq<ChunkV>) -> bool {
    forall|p: int, i: int|
        0 <= p < chunks.len() && 0 <= i < chunks[p].stripes.len() ==> {
            let o = (#[trigger] chunks[p].stripes[i]).offset;
            &&& !(SUPER_OFFSET_0 < o < SUPER_OFFSET_0 + SUPER_SIZE)
            &&& !(SUPER_OFFSET_1 < o < SUPER_OFFSET_1 + SUPER_SIZE)
            &&& !(SUPER_OFFSET_2 < o < SUPER_OFFSET_2 + SUPER_SIZE)
        }
}

/// What a transaction writes lies apart in the address space: each piece is in
/// one chunk and off the superblock copies, and no two different pieces share an
/// address.
pub open spec fn writes_apart(fs: FsV, t: TxnV) -> bool {
    &&& forall|at: u64, d: Seq<u8>| #[trigger]
        writes_at(t, at, d) ==> in_one_chunk(fs.chunks, at, d.len() as int) && off_supers(
            fs.chunks,
            at,
            d.len() as int,
        )
    &&& forall|a: u64, d: Seq<u8>, b: u64, e: Seq<u8>| #[trigger]
        writes_at(t, a, d) && #[trigger] writes_at(t, b, e) ==> (a == b && d == e) || a + d.len()
            <= b || b + e.len() <= a
}

/// Step `op` writes one copy of a piece of the transaction.
spec fn piece_step(fs: FsV, t: TxnV, op: Outcome<DeviceOp>, at: u64, d: Seq<u8>, j: int) -> bool {
    &&& writes_at(t, at, d)
    &&& locate(fs.chunks, at) matches Ok((places, _)) && 0 <= j < places.len() && op == Ok::<
        DeviceOp,
        Fault,
    >(DeviceOp::Write { offset: places[j] as int, data: d })
}

/// Step `op` writes a superblock copy at `at`.
spec fn super_step(fs: FsV, t: TxnV, op: Outcome<DeviceOp>, at: u64) -> bool {
    &&& at == SUPER_OFFSET_0 || at == SUPER_OFFSET_1 || at == SUPER_OFFSET_2
    &&& op == Ok::<DeviceOp, Fault>(
        DeviceOp::Write {
            offset: at as int,
            data: super_copy(next_super(fs.sb, t), template_of(fs)->Ok_0, at),
        },
    )
}

/// A step of a commit: a copy of a piece, a superblock copy, or nothing written.
spec fn known_step(fs: FsV, t: TxnV, op: Outcome<DeviceOp>) -> bool {
    ||| exists|at: u64, d: Seq<u8>, j: int| piece_step(fs, t, op, at, d, j)
    ||| exists|at: u64| super_step(fs, t, op, at)
    ||| forall|x: int| !touches(op, x)
}

proof fn block_steps(fs: FsV, t: TxnV, at: u64, d: Seq<u8>, i: int)
    requires
        writes_at(t, at, d),
        0 <= i < block_script(fs.chunks, at, d).len(),
    ensures
        known_step(fs, t, block_script(fs.chunks, at, d)[i]),
{
    match locate(fs.chunks, at) {
        Err(_) => {},
        Ok(_) => {
            assert(piece_step(fs, t, block_script(fs.chunks, at, d)[i], at, d, i));
        },
    }
}

proof fn data_steps(fs: FsV, t: TxnV, data: Seq<(u64, Seq<u8>)>, i: int)
    requires
        forall|k: int| 0 <= k < data.len() ==> t.data.contains(#[trigger] data[k]),
        0 <= i < data_script(fs.chunks, data).len(),
    ensures
        known_step(fs, t, data_script(fs.chunks, data)[i]),
    decreases data.len(),
{
    let front = data.drop_last();
    let a = data_script(fs.chunks, front);
    assert(t.data.contains(data[data.len() - 1]));
    assert(data.last() == (data.last().0, data.last().1));
    if i < a.len() {
        assert forall|k: int| 0 <= k < front.len() implies t.data.contains(#[trigger] front[k]) by {
            assert(front[k] == data[k]);
        }
        data_steps(fs, t, front, i);
    } else {
        block_steps(fs, t, data.last().0, data.last().1, i - a.len());
    }
}

proof fn tree_steps(fs: FsV, t: TxnV, ks: Seq<u64>, i: int)
    requires
        forall|k: int| 0 <= k < ks.len() ==> t.blocks.contains_key(#[trigger] ks[k]),
        0 <= i < tree_script(fs.chunks, t.blocks, ks).len(),
    ensures
        known_step(fs, t, tree_script(fs.chunks, t.blocks, ks)[i]),
    decreases ks.len(),
{
    let front = ks.drop_last();
    let a = tree_script(fs.chunks, t.blocks, front);
    assert(t.blocks.contains_key(ks[ks.len() - 1]));
    if i < a.len() {
        assert forall|k: int| 0 <= k < front.len() implies t.blocks.contains_key(
            #[trigger] front[k],
        ) by {
            assert(front[k] == ks[k]);
        }
        tree_steps(fs, t, front, i);
    } else {
        block_steps(fs, t, ks.last(), t.blocks[ks.last()], i - a.len());
    }
}

proof fn copy_steps(fs: FsV, len: Option<u64>, t: TxnV, at: u64, i: int)
    requires
        at == SUPER_OFFSET_0 || at == SUPER_OFFSET_1 || at == SUPER_OFFSET_2,
        0 <= i < copy_script(next_super(fs.sb, t), template_of(fs)->Ok_0, at, len).len(),
    ensures
        known_step(
            fs,
            t,
            copy_script(next_super(fs.sb, t), template_of(fs)->Ok_0, at, len)[i],
        ),
{
    assert(super_step(
        fs,
        t,
        copy_script(next_super(fs.sb, t), template_of(fs)->Ok_0, at, len)[i],
        at,
    ));
}

proof fn commit_steps(fs: FsV, len: Option<u64>, t: TxnV, i: int)
    requires
        t.blocks.dom().finite(),
        0 <= i < commit_script(fs, len, t, template_of(fs)->Ok_0).len(),
    ensures
        known_step(fs, t, commit_script(fs, len, t, template_of(fs)->Ok_0)[i]),
{
    let raw = template_of(fs)->Ok_0;
    let sb = next_super(fs.sb, t);
    let s = commit_script(fs, len, t, raw);
    let ks = addresses_of(t.blocks);
    lists_exists(t.blocks);
    let a = data_script(fs.chunks, t.data);
    let b = tree_script(fs.chunks, t.blocks, ks);
    let c = flush_script();
    let d = copy_script(sb, raw, SUPER_OFFSET_0, len);
    let e = copy_script(sb, raw, SUPER_OFFSET_1, len);
    let f = copy_script(sb, raw, SUPER_OFFSET_2, len);
    let n1 = a.len();
    let n2 = n1 + b.len();
    let n3 = n2 + c.len();
    let n4 = n3 + d.len();
    let n5 = n4 + e.len();
    let n6 = n5 + f.len();
    assert(s == body_script(fs.chunks, t) + super_script(sb, raw, len) + flush_script());
    if i < n1 {
        assert(s[i] == a[i]);
        assert forall|k: int| 0 <= k < t.data.len() implies t.data.contains(#[trigger] t.data[k]) by {}
        data_steps(fs, t, t.data, i);
    } else if i < n2 {
        assert(s[i] == b[i - n1]);
        assert forall|k: int| 0 <= k < ks.len() implies t.blocks.contains_key(#[trigger] ks[k]) by {
            assert(ks.to_set().contains(ks[k]));
        }
        tree_steps(fs, t, ks, i - n1);
    } else if i < n3 {
        assert(s[i] == c[i - n2]);
    } else if i < n4 {
        assert(s[i] == d[i - n3]);
        copy_steps(fs, len, t, SUPER_OFFSET_0, i - n3);
    } else if i < n5 {
        assert(s[i] == e[i - n4]);
        copy_steps(fs, len, t, SUPER_OFFSET_1, i - n4);
    } else if i < n6 {
        assert(s[i] == f[i - n5]);
        copy_steps(fs, len, t, SUPER_OFFSET_2, i - n5);
    } else {
        assert(s[i] == c[i - n6]);
    }
}

/// A byte that a copy of a piece writes holds an address of the piece.
proof fn piece_lands(
    fs: FsV,
    t: TxnV,
    op: Outcome<DeviceOp>,
    at: u64,
    d: Seq<u8>,
    j: int,
    x: int,
)
    requires
        chunks_apart(fs.chunks),
        writes_apart(fs, t),
        piece_step(fs, t, op, at, d, j),
        touches(op, x),
    ensures
        ({
            let y = at + (x - locate(fs.chunks, at)->Ok_0.0[j]);
            at <= y < at + d.len() && lands_on(fs.chunks, y, x) && copy_at(fs.chunks, y, j, x)
        }),
{
    let o = locate(fs.chunks, at)->Ok_0.0[j];
    copies_go_on(fs.chunks, at, x - o);
    assert(copy_at(fs.chunks, at + (x - o), j, x));
}

/// An address that lands on a superblock copy is withheld.
proof fn super_is_withheld(chunks: Seq<ChunkV>, y: int, x: int, sb: u64)
    requires
        chunks_apart(chunks),
        no_stripe_in_super(chunks),
        lands_on(chunks, y, x),
        sb == SUPER_OFFSET_0 || sb == SUPER_OFFSET_1 || sb == SUPER_OFFSET_2,
        sb <= x < sb + SUPER_SIZE,
    ensures
        in_ranges(sb_exclusions(chunks), y),
{
    let j = choose|j: int| copy_at(chunks, y, j, x);
    chunk_holding_covers(chunks, y as u64);
    let k = chunk_holding(chunks, y as u64);
    let o = chunks[k].stripes[j].offset;
    assert(chunks[k].logical + chunks[k].length <= u64::MAX);
    assert(o + chunks[k].length <= u64::MAX);
    assert(x == o + (y - chunks[k].logical));
    assert(o <= sb);
    mirrors_are_excluded(chunks, k, j, sb, y);
}

proof fn super_copy_len(sb: SuperV, raw: Seq<u8>, at: u64)
    requires
        raw.len() == SUPER_SIZE,
    ensures
        super_copy(sb, raw, at).len() == SUPER_SIZE,
{
    reveal(super_copy);
    let body = super_fields(sb, raw, at);
    assert(body.len() == SUPER_SIZE);
    csum_field_len(sb.csum_type, body.subrange(32, 4096));
}

/// Two steps of a commit that write the same byte are the same.
proof fn steps_apart(fs: FsV, t: TxnV, p: Outcome<DeviceOp>, q: Outcome<DeviceOp>, x: int)
    requires
        chunks_apart(fs.chunks),
        no_stripe_in_super(fs.chunks),
        writes_apart(fs, t),
        template_of(fs) is Ok,
        known_step(fs, t, p),
        known_step(fs, t, q),
        touches(p, x),
        touches(q, x),
    ensures
        p == q,
{
    let raw = template_of(fs)->Ok_0;
    let sb = next_super(fs.sb, t);
    super_copy_len(sb, raw, SUPER_OFFSET_0);
    super_copy_len(sb, raw, SUPER_OFFSET_1);
    super_copy_len(sb, raw, SUPER_OFFSET_2);
    if exists|at: u64, d: Seq<u8>, j: int| piece_step(fs, t, p, at, d, j) {
        let (a, d, i) = choose|at: u64, d: Seq<u8>, j: int| piece_step(fs, t, p, at, d, j);
        piece_lands(fs, t, p, a, d, i, x);
        let y = a + (x - locate(fs.chunks, a)->Ok_0.0[i]);
        if exists|at: u64, d: Seq<u8>, j: int| piece_step(fs, t, q, at, d, j) {
            let (b, e, k) = choose|at: u64, d: Seq<u8>, j: int| piece_step(fs, t, q, at, d, j);
            piece_lands(fs, t, q, b, e, k, x);
            let z = b + (x - locate(fs.chunks, b)->Ok_0.0[k]);
            one_address(fs.chunks, y, z, x);
            assert(writes_at(t, a, d) && writes_at(t, b, e));
            assert(a == b && d == e);
        } else {
            let b = choose|at: u64| super_step(fs, t, q, at);
            super_is_withheld(fs.chunks, y, x, b);
            assert(off_supers(fs.chunks, a, d.len() as int));
        }
    } else {
        let a = choose|at: u64| super_step(fs, t, p, at);
        if exists|at: u64, d: Seq<u8>, j: int| piece_step(fs, t, q, at, d, j) {
            let (b, e, k) = choose|at: u64, d: Seq<u8>, j: int| piece_step(fs, t, q, at, d, j);
            piece_lands(fs, t, q, b, e, k, x);
            let z = b + (x - locate(fs.chunks, b)->Ok_0.0[k]);
            super_is_withheld(fs.chunks, z, x, a);
            assert(off_supers(fs.chunks, b, e.len() as int));
        } else {
            let b = choose|at: u64| super_step(fs, t, q, at);
        }
    }
}

/// Where chunks lie apart and what a transaction writes lies apart in the
/// address space, no two different writes of its commit share a byte of the
/// device.
pub proof fn apart_is_clear_cut(fs: FsV, len: Option<u64>, t: TxnV)
    requires
        chunks_apart(fs.chunks),
        no_stripe_in_super(fs.chunks),
        writes_apart(fs, t),
        template_of(fs) is Ok,
        t.blocks.dom().finite(),
    ensures
        clear_cut(commit_script(fs, len, t, template_of(fs)->Ok_0)),
{
    let s = commit_script(fs, len, t, template_of(fs)->Ok_0);
    assert forall|i: int, j: int, x: int|
        0 <= i < s.len() && 0 <= j < s.len() && #[trigger] touches(s[i], x) && #[trigger] touches(
            s[j],
            x,
        ) implies s[i] == s[j] by {
        commit_steps(fs, len, t, i);
        commit_steps(fs, len, t, j);
        steps_apart(fs, t, s[i], s[j], x);
    }
}

/// A block that a transaction leaves where it is: it lies in one chunk, off the
/// superblock copies, and apart from everything that the transaction writes.
pub open spec fn left_in_place(fs: FsV, t: TxnV, a: u64) -> bool {
    &&& in_one_chunk(fs.chunks, a, fs.sb.node_size as int)
    &&& off_supers(fs.chunks, a, fs.sb.node_size as int)
    &&& forall|b: u64, e: Seq<u8>| #[trigger]
        writes_at(t, b, e) ==> a + fs.sb.node_size <= b || b + e.len() <= a
}

/// A commit keeps a block that its transaction leaves in place.
pub proof fn left_is_kept(fs: FsV, len: Option<u64>, t: TxnV, a: u64)
    requires
        chunks_apart(fs.chunks),
        no_stripe_in_super(fs.chunks),
        writes_apart(fs, t),
        template_of(fs) is Ok,
        t.blocks.dom().finite(),
        !t.blocks.contains_key(a),
        left_in_place(fs, t, a),
    ensures
        kept_by(fs, len, t, a),
{
    let raw = template_of(fs)->Ok_0;
    let s = commit_script(fs, len, t, raw);
    let sb = next_super(fs.sb, t);
    if let Ok((places, run)) = locate(fs.chunks, a) {
        locate_reaches(fs.chunks, a);
        assert forall|i: int, x: int|
            0 <= i < s.len() && places[0] <= x < places[0] + fs.sb.node_size implies !#[trigger] touches(
            s[i],
            x,
        ) by {
            if touches(s[i], x) {
                let y = a + (x - places[0]);
                copies_go_on(fs.chunks, a, x - places[0]);
                assert(copy_at(fs.chunks, y, 0, x));
                assert(lands_on(fs.chunks, y, x));
                commit_steps(fs, len, t, i);
                super_copy_len(sb, raw, SUPER_OFFSET_0);
                super_copy_len(sb, raw, SUPER_OFFSET_1);
                super_copy_len(sb, raw, SUPER_OFFSET_2);
                if exists|at: u64, d: Seq<u8>, j: int| piece_step(fs, t, s[i], at, d, j) {
                    let (b, e, k) = choose|at: u64, d: Seq<u8>, j: int|
                        piece_step(fs, t, s[i], at, d, j);
                    piece_lands(fs, t, s[i], b, e, k, x);
                    let z = b + (x - locate(fs.chunks, b)->Ok_0.0[k]);
                    one_address(fs.chunks, y, z, x);
                    assert(writes_at(t, b, e));
                } else {
                    let b = choose|at: u64| super_step(fs, t, s[i], at);
                    super_is_withheld(fs.chunks, y, x, b);
                }
            }
        }
    }
}

/// A commit that went through is clear where chunks lie apart, what its
/// transaction writes lies apart in the address space, its blocks are whole
/// nodes, and the other blocks of the files are left in place.
pub proof fn apart_is_clear(fs: FsV, len: Option<u64>, t: TxnV)
    requires
        committed(fs, len, t) is Ok,
        chunks_apart(fs.chunks),
        no_stripe_in_super(fs.chunks),
        writes_apart(fs, t),
        t.blocks.dom().finite(),
        files_of(t).1 < MAX_DEPTH,
        forall|a: u64| #[trigger]
            t.blocks.contains_key(a) ==> t.blocks[a].len() == fs.sb.node_size && locate(
                fs.chunks,
                a,
            ) is Ok,
        forall|a: u64| #[trigger]
            in_tree(fs, t.blocks, files_of(t).0, files_of(t).1, a) ==> t.blocks.contains_key(a)
                || left_in_place(fs, t, a),
    ensures
        commits_clear(fs, len, t),
{
    apart_is_clear_cut(fs, len, t);
    assert forall|a: u64| #[trigger]
        in_tree(fs, t.blocks, files_of(t).0, files_of(t).1, a) implies kept_by(fs, len, t, a) by {
        if t.blocks.contains_key(a) {
            assert(writes_at(t, a, t.blocks[a]));
            locate_reaches(fs.chunks, a);
        } else {
            left_is_kept(fs, len, t, a);
        }
    }
}

/// A transaction writes into free space alone, where it has `start` to allocate
/// blocks from: its blocks were free there and lie apart; its data was free on
/// the volume, and is not free in `start`.
pub open spec fn takes_free(fs: FsV, t: TxnV, start: Seq<BgV>) -> bool {
    &&& claimed(start, t.blocks.dom(), t.space->Some_0, fs.sb.node_size as int)
    &&& forall|x: int| #[trigger] offered(start, x) <= offered(space_on(fs)->Ok_0, x)
    &&& t.data.len() <= 1
    &&& t.data.len() == 1 ==> t.data[0].1.len() > 0
    &&& t.data.len() == 1 ==> forall|x: int|
        t.data[0].0 <= x < t.data[0].0 + t.data[0].1.len() ==> #[trigger] offered(
            space_on(fs)->Ok_0,
            x,
        ) > 0 && offered(start, x) == 0
}

proof fn fresh_is_claimed(fs: FsV, space: Seq<BgV>)
    requires
        tidy(space),
    ensures
        all_claimed(fs, space, fresh_state(space)),
{
}

/// A transaction that changes files writes into free space alone.
pub proof fn change_takes_free(
    fs: FsV,
    generation: u64,
    space: Seq<BgV>,
    ops: Seq<OpV>,
    seen: Lookups,
)
    requires
        space_on(fs) == Ok::<Seq<BgV>, Fault>(space),
        tidy(space),
    ensures
        files_changed(fs, generation, space, ops, seen) matches Ok(t) ==> takes_free(fs, t, space),
{
    if let Ok(t) = files_changed(fs, generation, space, ops, seen) {
        let s0 = fresh_state(space);
        fresh_is_claimed(fs, space);
        steps_claim(fs, space, generation, FS_TREE_OBJECTID, s0, files_root(fs), ops);
        let (s, r) = steps(fs, generation, FS_TREE_OBJECTID, s0, files_root(fs), ops)->Ok_0;
        let c = only_files(fs, generation, r);
        finish_claims(fs, space, c, s, seen.fst);
        assert(t.data == c.data) by {
            reveal(finalized);
        }
    }
}

/// A transaction that changes files and drops data writes into free space alone.
pub proof fn loss_takes_free(
    fs: FsV,
    generation: u64,
    space: Seq<BgV>,
    ops: Seq<OpV>,
    spans: Seq<Span>,
    seen: Lookups,
)
    requires
        space_on(fs) == Ok::<Seq<BgV>, Fault>(space),
        tidy(space),
    ensures
        spans_lost(fs, generation, space, ops, spans, seen) matches Ok(t) ==> takes_free(
            fs,
            t,
            space,
        ),
{
    if let Ok(t) = spans_lost(fs, generation, space, ops, spans, seen) {
        let s0 = fresh_state(space);
        fresh_is_claimed(fs, space);
        steps_claim(fs, space, generation, FS_TREE_OBJECTID, s0, files_root(fs), ops);
        let (s, r) = steps(fs, generation, FS_TREE_OBJECTID, s0, files_root(fs), ops)->Ok_0;
        let u = StateV { space: spans_freed(s.space, spans)->Ok_0, ..s };
        assert forall|x: int| #[trigger] offered(u.space, x) == offered(s.space, x) by {
            freed_spans_offer_nothing(s.space, spans, x);
        }
        claimed_still(
            space,
            s.pending.dom(),
            s.space,
            fs.sb.node_size as int,
            u.pending.dom(),
            u.space,
        );
        if let Some(root) = optional_root(fs, CSUM_TREE_OBJECTID, seen.csum) {
            steps_claim(
                fs,
                space,
                generation,
                CSUM_TREE_OBJECTID,
                u,
                (root.bytenr, root.level),
                trim_plan(fs, root.bytenr, span_pairs(spans)),
            );
        }
        let (d, c) = data_dropped(fs, generation, s, spans, seen.csum)->Ok_0;
        assert(all_claimed(fs, space, d));
        let changes = drop_changes(fs, generation, r, c, spans);
        finish_claims(fs, space, changes, d, seen.fst);
        assert(t.data == changes.data) by {
            reveal(finalized);
        }
    }
}

/// A transaction that writes data for a file writes into free space alone.
pub proof fn gain_takes_free(
    fs: FsV,
    generation: u64,
    all: Seq<BgV>,
    ops: Seq<OpV>,
    ino: u64,
    content: Seq<u8>,
    seen: Lookups,
)
    requires
        space_on(fs) == Ok::<Seq<BgV>, Fault>(all),
        tidy(all),
        fs.sb.sector_size > 0,
        content.len() <= u64::MAX,
        data_placed(all, content.len() as int, fs.sb.sector_size) is Some,
    ensures
        ({
            let (at, space) = data_placed(
                all,
                content.len() as int,
                fs.sb.sector_size,
            )->Some_0;
            data_written(fs, generation, space, ops, ino, at, content, seen) matches Ok(t)
                ==> takes_free(fs, t, space)
        }),
{
    let sector = fs.sb.sector_size;
    let len = disk_len(content.len() as int, sector);
    let (at, space) = data_placed(all, content.len() as int, sector)->Some_0;
    if len > 0 {
        first_fit_hands_out(all, BLOCK_GROUP_DATA, len, sector as u64);
        handed_out_once(all, space, at as int, len as int);
    }
    assert forall|x: int| #[trigger] offered(space, x) <= offered(all, x) by {
        if len > 0 {
            if lies_in(x, at as int, len as int) {
                assert(offered(space, x) == 0);
            } else {
                assert(offered(space, x) == offered(all, x));
            }
        }
    }
    assert(tidy(space));
    if let Ok(t) = data_written(fs, generation, space, ops, ino, at, content, seen) {
        let s0 = fresh_state(space);
        let full = with_extent(ops, generation, ino, at, len);
        fresh_is_claimed(fs, space);
        steps_claim(fs, space, generation, FS_TREE_OBJECTID, s0, files_root(fs), full);
        let (s, r) = steps(fs, generation, FS_TREE_OBJECTID, s0, files_root(fs), full)->Ok_0;
        if let Some(root) = optional_root(fs, CSUM_TREE_OBJECTID, seen.csum) {
            if let Ok(items) = csum_tiles(
                fs.sb.csum_type,
                fs.sb.node_size,
                sector,
                at,
                len,
                content,
            ) {
                steps_claim(
                    fs,
                    space,
                    generation,
                    CSUM_TREE_OBJECTID,
                    s,
                    (root.bytenr, root.level),
                    csum_ops(items),
                );
            }
        }
        let (d, c) = csums_added(fs, generation, s, at, content, seen.csum)->Ok_0;
        assert(all_claimed(fs, space, d));
        let changes = data_changes(fs, generation, r, c, ino, at, content);
        finish_claims(fs, space, changes, d, seen.fst);
        assert(t.data == changes.data) by {
            reveal(finalized);
        }
        if len > 0 {
            sectors_cover(content.len() as int, sector);
            assert(t.data[0].1.len() == len);
            assert forall|x: int|
                t.data[0].0 <= x < t.data[0].0 + t.data[0].1.len() implies #[trigger] offered(
                all,
                x,
            ) > 0 && offered(space, x) == 0 by {
                assert(lies_in(x, at as int, len as int));
                assert(offered(all, x) == 1);
                assert(offered(space, x) == 0);
            }
        }
    }
}

/// Every piece that a transaction writes lies in one chunk, and its blocks are
/// whole nodes.
pub open spec fn pieces_whole(fs: FsV, t: TxnV) -> bool {
    &&& forall|at: u64, d: Seq<u8>| #[trigger]
        writes_at(t, at, d) ==> in_one_chunk(fs.chunks, at, d.len() as int)
    &&& forall|a: u64| #[trigger]
        t.blocks.contains_key(a) ==> t.blocks[a].len() == fs.sb.node_size && locate(
            fs.chunks,
            a,
        ) is Ok
}

/// A block that is in use on the volume: nothing of it is free, it lies in one
/// chunk and off the superblock copies.
pub open spec fn in_use(fs: FsV, a: u64) -> bool {
    &&& in_one_chunk(fs.chunks, a, fs.sb.node_size as int)
    &&& off_supers(fs.chunks, a, fs.sb.node_size as int)
    &&& forall|x: int|
        a <= x < a + fs.sb.node_size ==> #[trigger] offered(space_on(fs)->Ok_0, x) == 0
}

proof fn piece_was_free(fs: FsV, t: TxnV, start: Seq<BgV>, at: u64, d: Seq<u8>, x: int)
    requires
        space_on(fs) is Ok,
        takes_free(fs, t, start),
        pieces_whole(fs, t),
        writes_at(t, at, d),
        at <= x < at + d.len(),
    ensures
        offered(space_on(fs)->Ok_0, x) > 0,
        t.blocks.contains_key(at) && t.blocks[at] == d || (t.data.len() == 1 && t.data[0] == (at, d)
            && offered(start, x) == 0),
        t.blocks.contains_key(at) && t.blocks[at] == d ==> offered(start, x) == 1,
        !in_ranges(sb_exclusions(fs.chunks), x),
{
    let all = space_on(fs)->Ok_0;
    if t.blocks.contains_key(at) && t.blocks[at] == d {
        assert(t.blocks.dom().contains(at));
        assert(offered(start, x) == 1);
        assert(offered(start, x) <= offered(all, x));
    } else {
        let i = choose|i: int| 0 <= i < t.data.len() && t.data[i] == (at, d);
        assert(t.data[0] == (at, d));
        assert(offered(all, x) > 0);
    }
    free_space_means(fs, x);
}

proof fn piece_is_not_empty(fs: FsV, t: TxnV, start: Seq<BgV>, at: u64, d: Seq<u8>)
    requires
        takes_free(fs, t, start),
        pieces_whole(fs, t),
        fs.sb.node_size > 0,
        writes_at(t, at, d),
    ensures
        d.len() > 0,
{
    if t.data.contains((at, d)) {
        let i = choose|i: int| 0 <= i < t.data.len() && t.data[i] == (at, d);
        assert(t.data[0] == (at, d));
    }
}

/// What a transaction writes into free space lies apart.
proof fn free_is_apart(fs: FsV, t: TxnV, start: Seq<BgV>)
    requires
        space_on(fs) is Ok,
        takes_free(fs, t, start),
        pieces_whole(fs, t),
        fs.sb.node_size > 0,
    ensures
        writes_apart(fs, t),
{
    assert forall|at: u64, d: Seq<u8>| #[trigger] writes_at(t, at, d) implies off_supers(
        fs.chunks,
        at,
        d.len() as int,
    ) by {
        assert forall|x: int| at <= x < at + d.len() implies !#[trigger] in_ranges(
            sb_exclusions(fs.chunks),
            x,
        ) by {
            piece_was_free(fs, t, start, at, d, x);
        }
    }
    assert forall|a: u64, d: Seq<u8>, b: u64, e: Seq<u8>| #[trigger]
        writes_at(t, a, d) && #[trigger] writes_at(t, b, e) implies (a == b && d == e) || a
        + d.len() <= b || b + e.len() <= a by {
        if !(a + d.len() <= b || b + e.len() <= a) {
            let x = if a < b {
                b as int
            } else {
                a as int
            };
            piece_is_not_empty(fs, t, start, a, d);
            piece_is_not_empty(fs, t, start, b, e);
            piece_was_free(fs, t, start, a, d, x);
            piece_was_free(fs, t, start, b, e, x);
            if t.blocks.contains_key(a) && t.blocks[a] == d {
                assert(t.blocks.contains_key(b) && t.blocks[b] == e);
                assert(t.blocks.dom().contains(a) && t.blocks.dom().contains(b));
            }
        }
    }
}

/// A commit that went through is clear where its transaction writes into free
/// space alone: the chunks lie apart, every piece lies in one chunk, and the
/// blocks of the files that are not rewritten were in use.
pub proof fn free_is_clear(fs: FsV, len: Option<u64>, t: TxnV, start: Seq<BgV>)
    requires
        committed(fs, len, t) is Ok,
        space_on(fs) is Ok,
        fs.sb.node_size > 0,
        takes_free(fs, t, start),
        pieces_whole(fs, t),
        chunks_apart(fs.chunks),
        no_stripe_in_super(fs.chunks),
        files_of(t).1 < MAX_DEPTH,
        forall|a: u64| #[trigger]
            in_tree(fs, t.blocks, files_of(t).0, files_of(t).1, a) ==> t.blocks.contains_key(a)
                || in_use(fs, a),
    ensures
        commits_clear(fs, len, t),
{
    free_is_apart(fs, t, start);
    assert forall|a: u64| #[trigger]
        in_tree(fs, t.blocks, files_of(t).0, files_of(t).1, a) implies t.blocks.contains_key(a)
        || left_in_place(fs, t, a) by {
        if !t.blocks.contains_key(a) {
            assert forall|b: u64, e: Seq<u8>| #[trigger] writes_at(t, b, e) implies a
                + fs.sb.node_size <= b || b + e.len() <= a by {
                if !(a + fs.sb.node_size <= b || b + e.len() <= a) {
                    let x = if a < b {
                        b as int
                    } else {
                        a as int
                    };
                    piece_is_not_empty(fs, t, start, b, e);
                    piece_was_free(fs, t, start, b, e, x);
                    assert(offered(space_on(fs)->Ok_0, x) == 0);
                }
            }
        }
    }
    apart_is_clear(fs, len, t);
}

/// A commit changes no byte of the device that holds an address in use: where an
/// address was not free on the volume, and is not withheld for a superblock copy,
/// every copy of its byte is what it was.
pub proof fn used_byte_is_kept(
    fs: FsV,
    len: Option<u64>,
    t: TxnV,
    start: Seq<BgV>,
    y: int,
    x: int,
)
    requires
        committed(fs, len, t) is Ok,
        space_on(fs) is Ok,
        fs.sb.node_size > 0,
        takes_free(fs, t, start),
        pieces_whole(fs, t),
        chunks_apart(fs.chunks),
        no_stripe_in_super(fs.chunks),
        lands_on(fs.chunks, y, x),
        offered(space_on(fs)->Ok_0, y) == 0,
        !in_ranges(sb_exclusions(fs.chunks), y),
        0 <= x < fs.disk.len(),
    ensures
        committed(fs, len, t)->Ok_0.0.disk.len() == fs.disk.len(),
        committed(fs, len, t)->Ok_0.0.disk[x] == fs.disk[x],
{
    let raw = template_of(fs)->Ok_0;
    let s = commit_script(fs, len, t, raw);
    let sb = next_super(fs.sb, t);
    free_is_apart(fs, t, start);
    assert forall|i: int| 0 <= i < s.len() implies !touches(#[trigger] s[i], x) by {
        if touches(s[i], x) {
            commit_steps(fs, len, t, i);
            super_copy_len(sb, raw, SUPER_OFFSET_0);
            super_copy_len(sb, raw, SUPER_OFFSET_1);
            super_copy_len(sb, raw, SUPER_OFFSET_2);
            if exists|at: u64, d: Seq<u8>, j: int| piece_step(fs, t, s[i], at, d, j) {
                let (b, e, k) = choose|at: u64, d: Seq<u8>, j: int|
                    piece_step(fs, t, s[i], at, d, j);
                piece_lands(fs, t, s[i], b, e, k, x);
                let z = b + (x - locate(fs.chunks, b)->Ok_0.0[k]);
                one_address(fs.chunks, y, z, x);
                piece_was_free(fs, t, start, b, e, y);
            } else {
                let b = choose|at: u64| super_step(fs, t, s[i], at);
                super_is_withheld(fs.chunks, y, x, b);
            }
        }
    }
    untouched(fs.disk, s, x);
}

} // verus!
