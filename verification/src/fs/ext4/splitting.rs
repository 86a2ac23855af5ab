//! Reading a file in two parts.

use vstd::prelude::*;

use crate::bytes::{le16, le32, zeros};
use crate::error::Fault;
use crate::fs::ext4::data::{content, content_len, mapped_bytes, piece_of, take_bounds, take_of};
use crate::fs::ext4::map::{
    entry_at, extent_len, extent_run, index_child, leaf_run, run_is_not_empty, run_of, wide48,
    MAX_EXTENT_DEPTH,
};
use crate::fs::ext4::volume::{block_of, Ext4V, InodeV};

verus! {

/// Where the first entry from entry `i` on begins that lies behind `lblock`.
pub open spec fn index_end(node: Seq<u8>, i: int, n: int, lblock: u64) -> int
    decreases n - i,
{
    if i >= n {
        0x1_0000_0000_0000_0000
    } else if le32(node, entry_at(i)) > lblock {
        le32(node, entry_at(i)) as int
    } else {
        index_end(node, i + 1, n, lblock)
    }
}

/// The first block behind `lblock` for which an index of the extent tree leads
/// another way.
pub open spec fn same_way(fs: Ext4V, node: Seq<u8>, lblock: u64, depth: nat) -> int
    decreases depth,
{
    let n = le16(node, 2) as int;
    if depth == 0 || le16(node, 6) == 0 {
        0x1_0000_0000_0000_0000
    } else {
        let here = index_end(node, 0, n, lblock);
        match index_child(node, 0, n, lblock, None) {
            None => here,
            Some(child) => match block_of(fs, child) {
                Err(_) => here,
                Ok(d) => {
                    let there = same_way(fs, d, lblock, (depth - 1) as nat);
                    if there < here {
                        there
                    } else {
                        here
                    }
                },
            },
        }
    }
}

/// The extents of a file keep to the blocks for which the indexes lead to them.
pub open spec fn extents_keep(fs: Ext4V, inode: InodeV) -> bool {
    inode.extents() ==> forall|l: u64|
        (#[trigger] run_of(fs, inode, l)) matches Ok(x) ==> l + x.1 <= same_way(
            fs,
            inode.area,
            l,
            MAX_EXTENT_DEPTH as nat,
        )
}

/// What run `a` at one block says of the block `j` blocks on.
spec fn later(a: (Option<u64>, u64), j: int) -> (Option<u64>, u64) {
    (
        match a.0 {
            None => None,
            Some(p) => Some((p + j) as u64),
        },
        (a.1 - j) as u64,
    )
}

proof fn leaf_later(node: Seq<u8>, i: int, n: int, l: u64, j: int)
    requires
        0 <= j < leaf_run(node, i, n, l).1,
        l + j <= u64::MAX,
    ensures
        leaf_run(node, i, n, (l + j) as u64) == later(leaf_run(node, i, n, l), j),
        leaf_run(node, i, n, l).0 matches Some(p) ==> p + leaf_run(node, i, n, l).1 <= u64::MAX,
    decreases n - i,
{
    if i < n {
        let o = entry_at(i);
        let first = le32(node, o);
        let raw = le16(node, o + 4);
        let len = extent_len(raw);
        if len > 0 && first <= l && l < first + len {
        } else if len > 0 && first > l {
        } else {
            leaf_later(node, i + 1, n, l, j);
        }
    }
}

proof fn index_later(node: Seq<u8>, i: int, n: int, l: u64, m: u64, best: Option<u64>)
    requires
        l <= m,
        m < index_end(node, i, n, l),
    ensures
        index_child(node, i, n, m, best) == index_child(node, i, n, l, best),
    decreases n - i,
{
    if i >= n || le32(node, entry_at(i)) > l {
    } else {
        let o = entry_at(i);
        index_later(
            node,
            i + 1,
            n,
            l,
            m,
            Some(wide48(le32(node, o + 4), le16(node, o + 8))),
        );
    }
}

proof fn extent_later(fs: Ext4V, node: Seq<u8>, l: u64, j: int, depth: nat)
    requires
        extent_run(fs, node, l, depth) is Ok,
        0 <= j < extent_run(fs, node, l, depth)->Ok_0.1,
        l + j < same_way(fs, node, l, depth),
        l + j <= u64::MAX,
    ensures
        extent_run(fs, node, (l + j) as u64, depth) == Ok::<(Option<u64>, u64), Fault>(
            later(extent_run(fs, node, l, depth)->Ok_0, j),
        ),
        extent_run(fs, node, l, depth)->Ok_0.0 matches Some(p) ==> p + extent_run(
            fs,
            node,
            l,
            depth,
        )->Ok_0.1 <= u64::MAX,
    decreases depth,
{
    let n = le16(node, 2) as int;
    if le16(node, 6) == 0 {
        leaf_later(node, 0, n, l, j);
    } else {
        index_later(node, 0, n, l, (l + j) as u64, None);
        let child = index_child(node, 0, n, l, None)->Some_0;
        let d = block_of(fs, child)->Ok_0;
        extent_later(fs, d, l, j, (depth - 1) as nat);
    }
}

proof fn run_later(fs: Ext4V, inode: InodeV, l: u64, j: int)
    requires
        extents_keep(fs, inode),
        run_of(fs, inode, l) is Ok,
        0 <= j < run_of(fs, inode, l)->Ok_0.1,
        l + j <= u64::MAX,
    ensures
        run_of(fs, inode, (l + j) as u64) == Ok::<(Option<u64>, u64), Fault>(
            later(run_of(fs, inode, l)->Ok_0, j),
        ),
        run_of(fs, inode, l)->Ok_0.0 is Some && inode.extents() ==> run_of(
            fs,
            inode,
            l,
        )->Ok_0.0->Some_0 + run_of(fs, inode, l)->Ok_0.1 <= u64::MAX,
{
    if inode.extents() {
        extent_later(fs, inode.area, l, j, MAX_EXTENT_DEPTH as nat);
    }
}

pub proof fn place_later(pos: int, k: int, run: int, bs: int)
    requires
        bs > 0,
        pos >= 0,
        k >= 0,
        pos % bs + k < run * bs,
    ensures
        ({
            let j = (pos + k) / bs - pos / bs;
            &&& 0 <= j < run
            &&& (run - j) * bs - (pos + k) % bs == run * bs - pos % bs - k
            &&& forall|p: int| #[trigger]
                ((p + j) * bs) + (pos + k) % bs == p * bs + pos % bs + k
        }),
{
    let q = pos + k;
    let j = q / bs - pos / bs;
    vstd::arithmetic::div_mod::lemma_fundamental_div_mod(pos, bs);
    vstd::arithmetic::div_mod::lemma_fundamental_div_mod(q, bs);
    vstd::arithmetic::div_mod::lemma_mod_bound(pos, bs);
    vstd::arithmetic::div_mod::lemma_mod_bound(q, bs);
    vstd::arithmetic::div_mod::lemma_div_is_ordered(pos, q, bs);
    assert(bs * (q / bs) - bs * (pos / bs) == j * bs) by (nonlinear_arith)
        requires
            j == q / bs - pos / bs,
    ;
    assert(j * bs + q % bs == pos % bs + k);
    assert(j < run) by (nonlinear_arith)
        requires
            j * bs <= pos % bs + k,
            pos % bs + k < run * bs,
            bs > 0,
    ;
    assert((run - j) * bs == run * bs - j * bs) by (nonlinear_arith);
    assert forall|p: int| #[trigger] ((p + j) * bs) + q % bs == p * bs + pos % bs + k by {
        assert((p + j) * bs == p * bs + j * bs) by (nonlinear_arith);
    }
}

/// The parts of a piece.
proof fn piece_split(fs: Ext4V, phys: Option<u64>, run: u64, pos: int, take: int, k: int)
    requires
        fs.sb.block_size > 0,
        fs.disk.len() <= u64::MAX,
        pos >= 0,
        0 <= k < take,
        pos % fs.sb.block_size as int + take <= run * fs.sb.block_size,
        piece_of(fs, phys, run, pos, take) is Ok,
    ensures
        ({
            let bs = fs.sb.block_size as int;
            let j = (pos + k) / bs - pos / bs;
            let p = piece_of(fs, phys, run, pos, take)->Ok_0;
            let at = later((phys, run), j);
            &&& p.len() == take
            &&& piece_of(fs, phys, run, pos, k) == Ok::<Seq<u8>, Fault>(p.take(k))
            &&& piece_of(fs, at.0, at.1, pos + k, take - k) == Ok::<Seq<u8>, Fault>(p.skip(k))
        }),
{
    let bs = fs.sb.block_size as int;
    let j = (pos + k) / bs - pos / bs;
    let p = piece_of(fs, phys, run, pos, take)->Ok_0;
    place_later(pos, k, run as int, bs);
    match phys {
        None => {
            assert(p.take(k) =~= zeros(k as nat));
            assert(p.skip(k) =~= zeros((take - k) as nat));
        },
        Some(start) => {
            let a = start * bs + pos % bs;
            assert((start + j) * bs + (pos + k) % bs == start * bs + pos % bs + k);
            vstd::arithmetic::div_mod::lemma_mod_bound(pos, bs);
            assert(start * bs >= 0) by (nonlinear_arith)
                requires
                    start >= 0,
                    bs > 0,
            ;
            assert(start + j <= u64::MAX);
            assert(p.take(k) =~= fs.disk.subrange(a, a + k));
            assert(p.skip(k) =~= fs.disk.subrange(a + k, a + take));
        },
    }
}

proof fn mapped_split(fs: Ext4V, inode: InodeV, pos: int, want: int, k: int)
    requires
        fs.sb.block_size > 0,
        fs.disk.len() <= u64::MAX,
        pos >= 0,
        0 <= k <= want,
        pos + want <= u64::MAX,
        extents_keep(fs, inode),
        mapped_bytes(fs, inode, pos, want) is Ok,
    ensures
        ({
            let p = mapped_bytes(fs, inode, pos, want)->Ok_0;
            &&& p.len() == want
            &&& mapped_bytes(fs, inode, pos, k) == Ok::<Seq<u8>, Fault>(p.take(k))
            &&& mapped_bytes(fs, inode, pos + k, want - k) == Ok::<Seq<u8>, Fault>(p.skip(k))
        }),
    decreases want,
{
    let bs = fs.sb.block_size as int;
    let p = mapped_bytes(fs, inode, pos, want)->Ok_0;
    if want == 0 {
        assert(p.take(0) =~= p);
        assert(p.skip(0) =~= p);
    } else {
        let l = (pos / bs) as u64;
        vstd::arithmetic::div_mod::lemma_div_is_ordered_by_denominator(pos, 1, bs);
        vstd::arithmetic::div_mod::lemma_div_pos_is_pos(pos, bs);
        run_is_not_empty(fs, inode, l);
        let (phys, run) = run_of(fs, inode, l)->Ok_0;
        let left = run * bs - pos % bs;
        let take = take_of(pos, want, run, bs);
        take_bounds(pos, want, run, bs);
        let a = piece_of(fs, phys, run, pos, take)->Ok_0;
        let b = mapped_bytes(fs, inode, pos + take, want - take)->Ok_0;
        assert(p == a + b);
        piece_split(fs, phys, run, pos, take, 0);
        if take <= k {
            mapped_split(fs, inode, pos + take, want - take, k - take);
            assert(take_of(pos, k, run, bs) == take);
            assert(p.take(k) =~= a + b.take(k - take));
            assert(p.skip(k) =~= b.skip(k - take));
        } else {
            mapped_split(fs, inode, pos + take, want - take, 0);
            place_later(pos, k, run as int, bs);
            piece_split(fs, phys, run, pos, take, k);
            let m = ((pos + k) / bs) as u64;
            vstd::arithmetic::div_mod::lemma_div_is_ordered_by_denominator(pos + k, 1, bs);
            vstd::arithmetic::div_mod::lemma_div_pos_is_pos(pos + k, bs);
            let j = (pos + k) / bs - pos / bs;
            assert(m == l + j);
            run_later(fs, inode, l, j);
            let at = later((phys, run), j);
            assert(run_of(fs, inode, m) == Ok::<(Option<u64>, u64), Fault>(at));
            assert(take_of(pos + k, want - k, at.1, bs) == take - k);
            assert(pos + k + (take - k) == pos + take);
            assert(p.skip(k) =~= a.skip(k) + b);
            assert(mapped_bytes(fs, inode, pos + k, want - k) == Ok::<Seq<u8>, Fault>(p.skip(k)));
            assert(p.take(k) =~= a.take(k));
            if k > 0 {
                assert(take_of(pos, k, run, bs) == k);
                assert(mapped_bytes(fs, inode, pos + k, 0) == Ok::<Seq<u8>, Fault>(Seq::empty()));
                assert(a.take(k) + Seq::<u8>::empty() =~= a.take(k));
            } else {
                assert(p.take(0) =~= Seq::<u8>::empty());
            }
        }
    }
}

/// Reading in two parts gives what reading at once gives: where a read of `n`
/// bytes succeeds, reading `k` of them and then the rest gives the same bytes.
/// Where an extent reaches past the blocks for which the indexes above lead to
/// it, the second part may be found elsewhere.
pub proof fn split_read(fs: Ext4V, inode: InodeV, offset: u64, len: int, k: int)
    requires
        fs.sb.block_size > 0,
        fs.disk.len() <= u64::MAX,
        inode.area.len() == 60,
        extents_keep(fs, inode),
        content(fs, inode, offset, len) is Ok,
        0 <= k <= content(fs, inode, offset, len)->Ok_0.len(),
        len >= 0,
    ensures
        ({
            let p = content(fs, inode, offset, len)->Ok_0;
            &&& offset + k <= u64::MAX
            &&& content(fs, inode, offset, k) == Ok::<Seq<u8>, Fault>(p.take(k))
            &&& content(fs, inode, (offset + k) as u64, len - k) == Ok::<Seq<u8>, Fault>(p.skip(k))
        }),
{
    content_len(fs, inode, offset, len);
    let p = content(fs, inode, offset, len)->Ok_0;
    let left = inode.size - offset;
    let want = if len < left {
        len
    } else {
        left
    };
    if want <= 0 {
        assert(p.take(0) =~= p);
        assert(p.skip(0) =~= p);
    } else if inode.inline_data() {
        assert(p.take(k) =~= inode.area.subrange(offset as int, offset + k));
        assert(p.skip(k) =~= inode.area.subrange(offset + k, offset + want));
        assert(p.take(0) =~= Seq::<u8>::empty());
        assert(p.skip(want) =~= Seq::<u8>::empty());
    } else {
        mapped_split(fs, inode, offset as int, want, k);
        assert(p.take(0) =~= Seq::<u8>::empty());
        assert(p.skip(want) =~= Seq::<u8>::empty());
    }
}

} // verus!
