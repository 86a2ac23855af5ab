//! What a commit writes is what is read afterwards.

use vstd::prelude::*;

use crate::bytes::splice;
use crate::device::{image_read, DeviceOp};
use crate::error::{Fault, Outcome};
use crate::fs::btrfs::blocks::{addresses_of, lists_exists};
use crate::fs::btrfs::chunk::locate;
use crate::fs::btrfs::search::{find_below, find_item, MAX_DEPTH};
use crate::fs::btrfs::tree::{child_index, child_index_range, Key};
use crate::fs::btrfs::volume::{disk_node, node_at, FsV};
use crate::fs::btrfs::write::booking::keys_end;
use crate::fs::btrfs::write::commit::{
    commit_script, committed, data_script, played, template_of, tree_script, tree_script_has,
};
use crate::fs::btrfs::write::contents::{bound, in_row, in_tree, sound, tree_over_row};
use crate::fs::btrfs::write::txn::TxnV;

pub use crate::fs::btrfs::write::commit::{played_len, touches};

verus! {

/// No two different writes of a script have a byte in common.
pub open spec fn clear_cut(s: Seq<Outcome<DeviceOp>>) -> bool {
    forall|i: int, j: int, x: int|
        0 <= i < s.len() && 0 <= j < s.len() && #[trigger] touches(s[i], x) && #[trigger] touches(
            s[j],
            x,
        ) ==> s[i] == s[j]
}

/// A byte that no step writes stays what it was.
pub proof fn untouched(disk: Seq<u8>, s: Seq<Outcome<DeviceOp>>, x: int)
    requires
        played(disk, s).fault is None,
        forall|i: int| 0 <= i < s.len() ==> !touches(#[trigger] s[i], x),
    ensures
        played(disk, s).disk.len() == disk.len(),
        0 <= x < disk.len() ==> played(disk, s).disk[x] == disk[x],
    decreases s.len(),
{
    if s.len() > 0 {
        let front = s.drop_last();
        assert forall|i: int| 0 <= i < front.len() implies !touches(#[trigger] front[i], x) by {
            assert(s[i] == front[i]);
        }
        untouched(disk, front, x);
        assert(!touches(s[s.len() - 1], x));
    }
}

/// A byte that a step writes, and no other step differently, is what that step
/// wrote.
pub proof fn touched(disk: Seq<u8>, s: Seq<Outcome<DeviceOp>>, i: int, offset: int, data: Seq<u8>, x: int)
    requires
        played(disk, s).fault is None,
        0 <= i < s.len(),
        s[i] == Ok::<DeviceOp, Fault>(DeviceOp::Write { offset, data }),
        0 <= offset <= x < offset + data.len(),
        forall|j: int| 0 <= j < s.len() && touches(#[trigger] s[j], x) ==> s[j] == s[i],
    ensures
        x < disk.len(),
        played(disk, s).disk.len() == disk.len(),
        played(disk, s).disk[x] == data[x - offset],
    decreases s.len(),
{
    played_len(disk, s);
    let front = s.drop_last();
    played_len(disk, front);
    let p = played(disk, front);
    assert(p.fault is None);
    if touches(s[s.len() - 1], x) {
        assert(s[s.len() - 1] == s[i]);
        assert(played(disk, s).disk == splice(p.disk, offset, data));
    } else {
        assert(i < front.len());
        assert(front[i] == s[i]);
        assert forall|j: int| 0 <= j < front.len() && touches(#[trigger] front[j], x) implies front[j]
            == front[i] by {
            assert(s[j] == front[j]);
        }
        touched(disk, front, i, offset, data, x);
    }
}

/// What a step writes is what is read afterwards, if no other step writes there
/// something else.
pub proof fn write_reads_back(disk: Seq<u8>, s: Seq<Outcome<DeviceOp>>, i: int, offset: int, data: Seq<u8>)
    requires
        played(disk, s).fault is None,
        clear_cut(s),
        0 <= i < s.len(),
        0 <= offset,
        s[i] == Ok::<DeviceOp, Fault>(DeviceOp::Write { offset, data }),
    ensures
        image_read(played(disk, s).disk, offset, data.len() as int) == Ok::<Seq<u8>, Fault>(data),
{
    let n = data.len() as int;
    let after = played(disk, s).disk;
    played_len(disk, s);
    write_in_bounds(disk, s, i, offset, data);
    assert forall|x: int| offset <= x < offset + n implies after[x] == data[x - offset] by {
        assert(touches(s[i], x));
        assert forall|j: int| 0 <= j < s.len() && touches(#[trigger] s[j], x) implies s[j]
            == s[i] by {
            assert(touches(s[j], x));
        }
        touched(disk, s, i, offset, data, x);
    }
    assert(after.subrange(offset, offset + n) =~= data);
}

/// Whether a commit lets the block at `a` be read as the transaction has it: a
/// block that the transaction wrote fills a node inside its chunk, and of any
/// other no byte is written over.
pub open spec fn kept_by(fs: FsV, len: Option<u64>, t: TxnV, a: u64) -> bool {
    let s = commit_script(fs, len, t, template_of(fs)->Ok_0);
    if t.blocks.contains_key(a) {
        &&& t.blocks[a].len() == fs.sb.node_size
        &&& locate(fs.chunks, a) matches Ok((places, run)) && places.len() > 0 && run
            >= fs.sb.node_size
    } else {
        locate(fs.chunks, a) matches Ok((places, run)) ==> places.len() > 0 && forall|i: int, x: int|
            0 <= i < s.len() && places[0] <= x < places[0] + fs.sb.node_size ==> !#[trigger] touches(
                s[i],
                x,
            )
    }
}

/// After a commit a block is read from the device as the transaction had it.
pub proof fn block_reads_back(fs: FsV, len: Option<u64>, t: TxnV, a: u64)
    requires
        committed(fs, len, t) is Ok,
        clear_cut(commit_script(fs, len, t, template_of(fs)->Ok_0)),
        kept_by(fs, len, t, a),
        t.blocks.dom().finite(),
    ensures
        node_at(committed(fs, len, t)->Ok_0.0, Map::empty(), a) == node_at(fs, t.blocks, a),
{
    reveal(node_at);
    reveal(disk_node);
    let s = commit_script(fs, len, t, template_of(fs)->Ok_0);
    let gs = committed(fs, len, t)->Ok_0.0;
    let n = fs.sb.node_size as int;
    played_len(fs.disk, s);
    assert(gs.sb.node_size == fs.sb.node_size);
    assert(gs.sb.csum_type == fs.sb.csum_type);
    assert(gs.sb.metadata_uuid == fs.sb.metadata_uuid);
    assert(gs.chunks == fs.chunks);
    match locate(fs.chunks, a) {
        Err(_) => {},
        Ok((places, run)) => {
            let p = places[0] as int;
            if t.blocks.contains_key(a) {
                let ks = addresses_of(t.blocks);
                lists_exists(t.blocks);
                assert(ks.to_set().contains(a));
                let k = choose|k: int| 0 <= k < ks.len() && ks[k] == a;
                tree_script_has(fs.chunks, t.blocks, ks, k, 0);
                let d = data_script(fs.chunks, t.data);
                let b = tree_script(fs.chunks, t.blocks, ks);
                let raw = t.blocks[a];
                let w = Ok::<DeviceOp, Fault>(DeviceOp::Write { offset: p, data: raw });
                let i = choose|i: int| 0 <= i < b.len() && b[i] == w;
                let at = d.len() + i;
                assert(s[at] == b[i]);
                write_reads_back(fs.disk, s, at, p, raw);
                assert(gs.disk.subrange(p, p + n) =~= raw);
            } else {
                assert forall|x: int| p <= x < p + n && 0 <= x < fs.disk.len() implies gs.disk[x]
                    == fs.disk[x] by {
                    assert forall|i: int| 0 <= i < s.len() implies !touches(#[trigger] s[i], x) by {}
                    untouched(fs.disk, s, x);
                }
                if p + n <= fs.disk.len() {
                    assert(gs.disk.subrange(p, p + n) =~= fs.disk.subrange(p, p + n));
                }
            }
        },
    }
}

pub proof fn write_in_bounds(disk: Seq<u8>, s: Seq<Outcome<DeviceOp>>, i: int, offset: int, data: Seq<u8>)
    requires
        played(disk, s).fault is None,
        0 <= i < s.len(),
        s[i] == Ok::<DeviceOp, Fault>(DeviceOp::Write { offset, data }),
    ensures
        offset + data.len() <= disk.len(),
    decreases s.len(),
{
    let front = s.drop_last();
    played_len(disk, front);
    if i < front.len() {
        assert(front[i] == s[i]);
        write_in_bounds(disk, front, i, offset, data);
    }
}

/// A search meets the same nodes in two volumes and finds the same.
pub proof fn search_agrees(
    fs: FsV,
    p: Map<u64, Seq<u8>>,
    gs: FsV,
    q: Map<u64, Seq<u8>>,
    b: u64,
    level: u8,
    lo: int,
    hi: int,
    k: Key,
    depth: u8,
)
    requires
        sound(fs, p, b, level, lo, hi),
        level < depth,
        forall|a: u64| #[trigger] in_tree(fs, p, b, level, a) ==> node_at(gs, q, a) == node_at(fs, p, a),
    ensures
        find_below(gs, q, b, k, depth) == find_below(fs, p, b, k, depth),
    decreases level,
{
    reveal(find_below);
    reveal(sound);
    assert(in_tree(fs, p, b, level, b));
    let n = node_at(fs, p, b)->Ok_0;
    if level > 0 {
        let below = (level - 1) as u8;
        tree_over_row(fs, p, b, level, n);
        child_index_range(n.ptrs, k);
        let i = child_index(n.ptrs, k);
        assert forall|a: u64| #[trigger]
            in_tree(fs, p, n.ptrs[i].blockptr, below, a) implies node_at(gs, q, a) == node_at(
            fs,
            p,
            a,
        ) by {
            assert(in_row(fs, p, n.ptrs, below, a));
            assert(in_tree(fs, p, b, level, a));
        }
        search_agrees(
            fs,
            p,
            gs,
            q,
            n.ptrs[i].blockptr,
            below,
            n.ptrs[i].key.ord(),
            bound(n.ptrs, i, hi),
            k,
            (depth - 1) as u8,
        );
    }
}

/// After a commit a search in a tree of the transaction finds on the device what
/// it found among the transaction's blocks.
pub proof fn committed_is_found(
    fs: FsV,
    len: Option<u64>,
    t: TxnV,
    root: (u64, u8),
    k: Key,
)
    requires
        committed(fs, len, t) is Ok,
        clear_cut(commit_script(fs, len, t, template_of(fs)->Ok_0)),
        t.blocks.dom().finite(),
        root.1 < MAX_DEPTH,
        sound(fs, t.blocks, root.0, root.1, 0, keys_end()),
        forall|a: u64| #[trigger]
            in_tree(fs, t.blocks, root.0, root.1, a) ==> kept_by(fs, len, t, a),
    ensures
        find_item(committed(fs, len, t)->Ok_0.0, Map::empty(), root.0, k) == find_item(
            fs,
            t.blocks,
            root.0,
            k,
        ),
{
    let gs = committed(fs, len, t)->Ok_0.0;
    assert forall|a: u64| #[trigger] in_tree(fs, t.blocks, root.0, root.1, a) implies node_at(
        gs,
        Map::empty(),
        a,
    ) == node_at(fs, t.blocks, a) by {
        block_reads_back(fs, len, t, a);
    }
    search_agrees(
        fs,
        t.blocks,
        gs,
        Map::empty(),
        root.0,
        root.1,
        0,
        keys_end(),
        k,
        MAX_DEPTH,
    );
}

} // verus!
