//! The on-disk format of a file's block map: extent trees and block pointers.
//!
//! A file is a map from its blocks to those of the filesystem. What is stated
//! here is how the format writes such a map down; what is shown is that a file
//! whose map was written down so reads as the map says.

use vstd::arithmetic::power::pow;
use vstd::prelude::*;

use crate::bytes::{enc16, enc32, group_enc_len, le16, le16_of_enc, le32, le32_of_enc};
use crate::error::Fault;
use crate::fs::ext4::data::{content, mapped_bytes, piece_of, take_bounds, take_of};
use crate::fs::ext4::map::{
    below, entry_at, extent_len, extent_run, index_child, indirect_block, indirect_from, leaf_run,
    pointer, reach, run_of, EXTENT_MAGIC, MAX_EXTENT_DEPTH,
};
use crate::fs::ext4::splitting::place_later;
use crate::fs::ext4::volume::{block_of, Ext4V, InodeV};

verus! {

/// Behind the last block that a file can have.
pub open spec fn blocks_end() -> int {
    0x1_0000_0000
}

/// An extent: blocks of a file that lie behind one another. One that was never
/// written reads as zeros.
pub struct Extent {
    /// The first block of the file.
    pub first: u32,
    pub len: int,
    /// Where it begins.
    pub start: u64,
    pub written: bool,
}

/// An extent as the entry of a leaf: the first block, the length, which is 32768
/// more for an extent that was never written, and where it begins, the high half
/// first.
pub open spec fn extent_bytes(e: Extent) -> Seq<u8> {
    let len = if e.written {
        e.len
    } else {
        e.len + 32768
    };
    enc32(e.first) + enc16(len as u16) + enc16((e.start / 0x1_0000_0000) as u16) + enc32(
        (e.start % 0x1_0000_0000) as u32,
    )
}

/// An entry of an index: the first block below it and the block of the node
/// there, the low half first.
pub open spec fn index_bytes(first: u32, block: u64) -> Seq<u8> {
    enc32(first) + enc32((block % 0x1_0000_0000) as u32) + enc16((block / 0x1_0000_0000) as u16)
        + enc16(0)
}

/// A node begins with its magic number, the number of its entries, that of the
/// entries that it has room for, and its height above the leaves.
pub open spec fn node_begins(node: Seq<u8>, n: int, height: nat) -> bool {
    &&& 0 <= n <= 0xFFFF
    &&& height <= 0xFFFF
    &&& 12 + 12 * n <= node.len()
    &&& node.subrange(0, 2) == enc16(0xF30A)
    &&& node.subrange(2, 4) == enc16(n as u16)
    &&& node.subrange(6, 8) == enc16(height as u16)
}

/// Extents that can be written down as a leaf: none is empty or too long, they
/// ascend, and they lie in blocks `lo` up to `hi` of the file.
pub open spec fn extents_ascend(s: Seq<Extent>, lo: int, hi: int) -> bool {
    &&& forall|i: int|
        0 <= i < s.len() ==> 1 <= (#[trigger] s[i]).len && s[i].len <= (if s[i].written {
            32768int
        } else {
            32767
        }) && s[i].start < 0x1_0000_0000_0000 && lo <= s[i].first && s[i].first + s[i].len <= hi
    &&& forall|i: int, j: int|
        0 <= i < j < s.len() ==> (#[trigger] s[i]).first + s[i].len <= (#[trigger] s[j]).first
}

/// A leaf that holds these extents.
pub open spec fn leaf_holds(node: Seq<u8>, s: Seq<Extent>) -> bool {
    &&& node_begins(node, s.len() as int, 0)
    &&& forall|i: int|
        0 <= i < s.len() ==> node.subrange(12 + 12 * i, 24 + 12 * i) == extent_bytes(
            #[trigger] s[i],
        )
}

/// An index whose entries begin at these blocks of the file and lead to these
/// blocks of the filesystem.
pub open spec fn index_holds(node: Seq<u8>, s: Seq<(u32, u64)>, height: nat) -> bool {
    &&& node_begins(node, s.len() as int, height)
    &&& forall|i: int|
        0 <= i < s.len() ==> node.subrange(12 + 12 * i, 24 + 12 * i) == index_bytes(
            (#[trigger] s[i]).0,
            s[i].1,
        ) && s[i].1 < 0x1_0000_0000_0000
    &&& forall|i: int, j: int| 0 <= i < j < s.len() ==> (#[trigger] s[i]).0 < (#[trigger] s[j]).0
}

/// Extent `e` puts block `l` of the file there, where `m` has it.
pub open spec fn puts(e: Extent, l: int) -> bool {
    e.written && e.first <= l < e.first + e.len
}

/// The extents are those of the map `m` from block `lo` up to `hi`.
pub open spec fn extents_map(s: Seq<Extent>, m: Map<int, u64>, lo: int, hi: int) -> bool {
    &&& forall|i: int, l: int|
        0 <= i < s.len() && #[trigger] puts(s[i], l) ==> m.contains_key(l) && m[l] == s[i].start
            + (l - s[i].first)
    &&& forall|l: int|
        lo <= l < hi && #[trigger] m.contains_key(l) ==> exists|i: int|
            0 <= i < s.len() && #[trigger] puts(s[i], l)
}

/// Where the blocks end that entry `i` of an index is for.
pub open spec fn entry_end(s: Seq<(u32, u64)>, i: int, hi: int) -> int {
    if i + 1 < s.len() {
        s[i + 1].0 as int
    } else {
        hi
    }
}

/// The bytes of block `b` of the filesystem.
pub open spec fn block_bytes_at(fs: Ext4V, b: u64) -> Seq<u8> {
    fs.disk.subrange(b * fs.sb.block_size, b * fs.sb.block_size + fs.sb.block_size)
}

/// Block `b` is one of the filesystem's, and on the device.
pub open spec fn block_there(fs: Ext4V, b: u64) -> bool {
    b < fs.sb.blocks_count && b * fs.sb.block_size + fs.sb.block_size <= fs.disk.len()
}

/// An extent tree, `height` levels above its leaves, that was written down for
/// the map `m` from block `lo` up to `hi` of a file.
#[verifier::opaque]
pub open spec fn extent_tree(
    fs: Ext4V,
    node: Seq<u8>,
    height: nat,
    m: Map<int, u64>,
    lo: int,
    hi: int,
) -> bool
    decreases height,
{
    if height == 0 {
        exists|s: Seq<Extent>| #[trigger]
            leaf_holds(node, s) && extents_ascend(s, lo, hi) && extents_map(s, m, lo, hi)
    } else {
        exists|s: Seq<(u32, u64)>| #[trigger]
            index_holds(node, s, height) && s.len() > 0 && s[0].0 <= lo && forall|i: int|
                0 <= i < s.len() ==> (#[trigger] s[i]).0 < hi && block_there(fs, s[i].1)
                    && extent_tree(
                    fs,
                    block_bytes_at(fs, s[i].1),
                    (height - 1) as nat,
                    m,
                    s[i].0 as int,
                    entry_end(s, i, hi),
                )
    }
}

/// What a map has of block `l`.
pub open spec fn placed_at(m: Map<int, u64>, l: int) -> Option<u64> {
    if m.contains_key(l) {
        Some(m[l])
    } else {
        None
    }
}

/// A run at block `l` is what the map has: block `l` and all behind it, up to
/// the end of the run, lie behind one another, or are all missing.
pub open spec fn run_follows(m: Map<int, u64>, l: int, hi: int, run: (Option<u64>, u64)) -> bool {
    &&& run.0 == placed_at(m, l)
    &&& run.1 >= 1
    &&& l + run.1 <= hi
    &&& forall|k: int|
        0 <= k < run.1 ==> #[trigger] placed_at(m, l + k) == match run.0 {
            Some(p) => Some((p + k) as u64),
            None => None,
        }
    &&& run.0 matches Some(p) ==> p + run.1 <= u64::MAX
}

proof fn part_of(d: Seq<u8>, a: int, e: Seq<u8>, o: int, w: int)
    requires
        0 <= a,
        a + e.len() <= d.len(),
        d.subrange(a, a + e.len()) == e,
        0 <= o <= o + w <= e.len(),
    ensures
        d.subrange(a + o, a + o + w) == e.subrange(o, o + w),
{
    assert(d.subrange(a + o, a + o + w) =~= d.subrange(a, a + e.len()).subrange(o, o + w));
}

proof fn header_reads(node: Seq<u8>, n: int, height: nat)
    requires
        node_begins(node, n, height),
    ensures
        le16(node, 0) == EXTENT_MAGIC,
        le16(node, 2) == n,
        le16(node, 6) == height,
{
    le16_of_enc(node, 0, 0xF30A);
    le16_of_enc(node, 2, n as u16);
    le16_of_enc(node, 6, height as u16);
}

proof fn extent_reads(node: Seq<u8>, s: Seq<Extent>, i: int, lo: int, hi: int)
    requires
        leaf_holds(node, s),
        extents_ascend(s, lo, hi),
        0 <= i < s.len(),
    ensures
        ({
            let o = entry_at(i);
            let e = s[i];
            &&& le32(node, o) == e.first
            &&& extent_len(le16(node, o + 4)) == e.len
            &&& (le16(node, o + 4) > 32768) == !e.written
            &&& le16(node, o + 6) * 0x1_0000_0000 + le32(node, o + 8) == e.start
        }),
{
    broadcast use group_enc_len;

    let o = entry_at(i);
    let e = s[i];
    let b = extent_bytes(e);
    let raw = (if e.written {
        e.len
    } else {
        e.len + 32768
    }) as u16;
    let hi16 = (e.start / 0x1_0000_0000) as u16;
    let lo32 = (e.start % 0x1_0000_0000) as u32;
    assert(b.len() == 12);
    assert(node.subrange(12 + 12 * i, 24 + 12 * i) == b);
    part_of(node, o, b, 0, 4);
    part_of(node, o, b, 4, 2);
    part_of(node, o, b, 6, 2);
    part_of(node, o, b, 8, 4);
    assert(b.subrange(0, 4) =~= enc32(e.first));
    assert(b.subrange(4, 6) =~= enc16(raw));
    assert(b.subrange(6, 8) =~= enc16(hi16));
    assert(b.subrange(8, 12) =~= enc32(lo32));
    le32_of_enc(node, o, e.first);
    le16_of_enc(node, o + 4, raw);
    le16_of_enc(node, o + 6, hi16);
    le32_of_enc(node, o + 8, lo32);
}

proof fn index_reads(node: Seq<u8>, s: Seq<(u32, u64)>, height: nat, i: int)
    requires
        index_holds(node, s, height),
        0 <= i < s.len(),
    ensures
        ({
            let o = entry_at(i);
            &&& le32(node, o) == s[i].0
            &&& le16(node, o + 8) * 0x1_0000_0000 + le32(node, o + 4) == s[i].1
        }),
{
    broadcast use group_enc_len;

    let o = entry_at(i);
    let b = index_bytes(s[i].0, s[i].1);
    let hi16 = (s[i].1 / 0x1_0000_0000) as u16;
    let lo32 = (s[i].1 % 0x1_0000_0000) as u32;
    assert(b.len() == 12);
    assert(node.subrange(12 + 12 * i, 24 + 12 * i) == b);
    part_of(node, o, b, 0, 4);
    part_of(node, o, b, 4, 4);
    part_of(node, o, b, 8, 2);
    assert(b.subrange(0, 4) =~= enc32(s[i].0));
    assert(b.subrange(4, 8) =~= enc32(lo32));
    assert(b.subrange(8, 10) =~= enc16(hi16));
    le32_of_enc(node, o, s[i].0);
    le32_of_enc(node, o + 4, lo32);
    le16_of_enc(node, o + 8, hi16);
}

/// A leaf finds the block that its extents put there.
proof fn leaf_finds(
    node: Seq<u8>,
    s: Seq<Extent>,
    i: int,
    l: u64,
    m: Map<int, u64>,
    lo: int,
    hi: int,
)
    requires
        leaf_holds(node, s),
        extents_ascend(s, lo, hi),
        extents_map(s, m, lo, hi),
        0 <= i <= s.len(),
        lo <= l < hi <= blocks_end(),
        forall|j: int| 0 <= j < i ==> (#[trigger] s[j]).first + s[j].len <= l,
    ensures
        run_follows(m, l as int, hi, leaf_run(node, i, s.len() as int, l)),
    decreases s.len() - i,
{
    let n = s.len() as int;
    let r = leaf_run(node, i, n, l);
    if i < n {
        extent_reads(node, s, i, lo, hi);
        let e = s[i];
        if e.first <= l && l < e.first + e.len {
            assert forall|k: int| 0 <= k < r.1 implies #[trigger] placed_at(
                m,
                l + k,
            ) == (match r.0 {
                Some(p) => Some((p + k) as u64),
                None => None,
            }) by {
                if e.written {
                    assert(puts(s[i], l + k));
                } else {
                    missing(s, i, l + k, m, lo, hi);
                }
            }
            assert(placed_at(m, l + 0) == placed_at(m, l as int));
        } else if e.first > l {
            assert forall|k: int| 0 <= k < r.1 implies #[trigger] placed_at(
                m,
                l + k,
            ) is None by {
                between(s, i, l + k, m, lo, hi);
            }
            assert(placed_at(m, l + 0) == placed_at(m, l as int));
        } else {
            leaf_finds(node, s, i + 1, l, m, lo, hi);
        }
    } else {
        between(s, i, l as int, m, lo, hi);
    }
}

/// A block that an extent covers which was never written is in no map.
proof fn missing(s: Seq<Extent>, i: int, l: int, m: Map<int, u64>, lo: int, hi: int)
    requires
        extents_ascend(s, lo, hi),
        extents_map(s, m, lo, hi),
        0 <= i < s.len(),
        !s[i].written,
        s[i].first <= l < s[i].first + s[i].len,
    ensures
        placed_at(m, l) is None,
{
    if m.contains_key(l) {
        let j = choose|j: int| 0 <= j < s.len() && #[trigger] puts(s[j], l);
        if j < i {
            assert(s[j].first + s[j].len <= s[i].first);
        } else if i < j {
            assert(s[i].first + s[i].len <= s[j].first);
        }
    }
}

/// A block behind the extents before entry `i`, and before that entry, is in no
/// map.
proof fn between(s: Seq<Extent>, i: int, l: int, m: Map<int, u64>, lo: int, hi: int)
    requires
        extents_ascend(s, lo, hi),
        extents_map(s, m, lo, hi),
        0 <= i <= s.len(),
        lo <= l < hi,
        forall|j: int| 0 <= j < i ==> (#[trigger] s[j]).first + s[j].len <= l,
        i < s.len() ==> l < s[i].first,
    ensures
        placed_at(m, l) is None,
{
    if m.contains_key(l) {
        let j = choose|j: int| 0 <= j < s.len() && #[trigger] puts(s[j], l);
        if j < i {
            assert(s[j].first + s[j].len <= l);
        } else if i < j {
            assert(s[i].first + s[i].len <= s[j].first);
        }
    }
}

/// An index leads to the last entry that begins at or before the block.
proof fn index_finds(
    node: Seq<u8>,
    s: Seq<(u32, u64)>,
    height: nat,
    i: int,
    l: u64,
    best: Option<u64>,
) -> (at: int)
    requires
        index_holds(node, s, height),
        0 <= i <= s.len(),
        i == 0 ==> s.len() > 0 && s[0].0 <= l,
        i > 0 ==> best == Some(s[i - 1].1) && s[i - 1].0 <= l,
    ensures
        0 <= at < s.len(),
        s[at].0 <= l,
        at + 1 < s.len() ==> l < s[at + 1].0,
        index_child(node, i, s.len() as int, l, best) == Some(s[at].1),
    decreases s.len() - i,
{
    if i < s.len() {
        index_reads(node, s, height, i);
        if s[i].0 > l {
            i - 1
        } else {
            index_finds(node, s, height, i + 1, l, Some(s[i].1))
        }
    } else {
        i - 1
    }
}

/// A block of the filesystem that is on the device is read as it is.
pub proof fn block_is_read(fs: Ext4V, b: u64)
    requires
        block_there(fs, b),
        fs.disk.len() <= u64::MAX,
        fs.sb.block_size > 0,
    ensures
        block_of(fs, b) == Ok::<Seq<u8>, Fault>(block_bytes_at(fs, b)),
{
}

/// The lookup in an extent tree gives what the map gives for which the tree was
/// written down, at every block and at every height of the tree.
pub proof fn extent_tree_reads_back(
    fs: Ext4V,
    node: Seq<u8>,
    height: nat,
    m: Map<int, u64>,
    lo: int,
    hi: int,
    l: u64,
    depth: nat,
)
    requires
        fs.disk.len() <= u64::MAX,
        fs.sb.block_size > 0,
        extent_tree(fs, node, height, m, lo, hi),
        lo <= l < hi <= blocks_end(),
        depth > height,
    ensures
        extent_run(fs, node, l, depth) matches Ok(r) && run_follows(m, l as int, hi, r),
    decreases height,
{
    if height == 0 {
        let s = leaf_of_tree(fs, node, m, lo, hi);
        header_reads(node, s.len() as int, 0);
        leaf_finds(node, s, 0, l, m, lo, hi);
    } else {
        let s = index_of_tree(fs, node, height, m, lo, hi);
        header_reads(node, s.len() as int, height);
        let at = index_finds(node, s, height, 0, l, None);
        assert(block_there(fs, s[at].1));
        block_is_read(fs, s[at].1);
        extent_tree_reads_back(
            fs,
            block_bytes_at(fs, s[at].1),
            (height - 1) as nat,
            m,
            s[at].0 as int,
            entry_end(s, at, hi),
            l,
            (depth - 1) as nat,
        );
        if at + 1 < s.len() {
            assert(s[at + 1].0 < hi);
        }
    }
}

proof fn leaf_of_tree(fs: Ext4V, node: Seq<u8>, m: Map<int, u64>, lo: int, hi: int) -> (s: Seq<
    Extent,
>)
    requires
        extent_tree(fs, node, 0, m, lo, hi),
    ensures
        leaf_holds(node, s),
        extents_ascend(s, lo, hi),
        extents_map(s, m, lo, hi),
{
    reveal(extent_tree);
    choose|s: Seq<Extent>| #[trigger]
        leaf_holds(node, s) && extents_ascend(s, lo, hi) && extents_map(s, m, lo, hi)
}

proof fn index_of_tree(
    fs: Ext4V,
    node: Seq<u8>,
    height: nat,
    m: Map<int, u64>,
    lo: int,
    hi: int,
) -> (s: Seq<(u32, u64)>)
    requires
        height > 0,
        extent_tree(fs, node, height, m, lo, hi),
    ensures
        index_holds(node, s, height),
        s.len() > 0,
        s[0].0 <= lo,
        forall|i: int|
            0 <= i < s.len() ==> (#[trigger] s[i]).0 < hi && block_there(fs, s[i].1) && extent_tree(
                fs,
                block_bytes_at(fs, s[i].1),
                (height - 1) as nat,
                m,
                s[i].0 as int,
                entry_end(s, i, hi),
            ),
{
    reveal(extent_tree);
    choose|s: Seq<(u32, u64)>| #[trigger]
        index_holds(node, s, height) && s.len() > 0 && s[0].0 <= lo && forall|i: int|
            0 <= i < s.len() ==> (#[trigger] s[i]).0 < hi && block_there(fs, s[i].1) && extent_tree(
                fs,
                block_bytes_at(fs, s[i].1),
                (height - 1) as nat,
                m,
                s[i].0 as int,
                entry_end(s, i, hi),
            )
}

/// Pointer `i` of those at the beginning of `d`.
pub open spec fn holds_pointer(d: Seq<u8>, i: int, x: u32) -> bool {
    d.subrange(4 * i, 4 * i + 4) == enc32(x)
}

/// How many pointers a block holds.
pub open spec fn per_block(fs: Ext4V) -> int {
    fs.sb.block_size as int / 4
}

/// A pointer, `levels` blocks of pointers above the data, that was written down
/// for the map `m` from block `base` of a file on. A pointer of zero leads
/// nowhere.
#[verifier::opaque]
pub open spec fn pointer_tree(fs: Ext4V, p: u32, levels: nat, m: Map<int, u64>, base: int) -> bool
    decreases levels,
{
    if p == 0 {
        forall|l: int|
            base <= l < base + pow(per_block(fs), levels) ==> !#[trigger] m.contains_key(l)
    } else if levels == 0 {
        m.contains_key(base) && m[base] == p
    } else {
        block_there(fs, p as u64) && exists|s: Seq<u32>| #[trigger]
            holds_pointers(block_bytes_at(fs, p as u64), s) && s.len() == per_block(fs)
                && forall|i: int|
                0 <= i < s.len() ==> pointer_tree(
                    fs,
                    #[trigger] s[i],
                    (levels - 1) as nat,
                    m,
                    base + i * pow(per_block(fs), (levels - 1) as nat),
                )
    }
}

/// A block that begins with these pointers.
pub open spec fn holds_pointers(d: Seq<u8>, s: Seq<u32>) -> bool {
    forall|i: int| 0 <= i < s.len() ==> holds_pointer(d, i, #[trigger] s[i])
}

/// An inode's fifteen pointers: twelve to the file's first blocks, then one to a
/// block of pointers, one to a block of such blocks, and one to a block of those.
pub open spec fn pointers_map(fs: Ext4V, area: Seq<u8>, m: Map<int, u64>) -> bool {
    let per = per_block(fs);
    &&& forall|i: int| 0 <= i < 12 ==> #[trigger] root_pointer(fs, area, i, 0, m, i)
    &&& root_pointer(fs, area, 12, 1, m, 12)
    &&& root_pointer(fs, area, 13, 2, m, 12 + per)
    &&& root_pointer(fs, area, 14, 3, m, 12 + per + per * per)
}

/// Pointer `i` of an inode, written down for the map `m` from block `base` on.
pub open spec fn root_pointer(
    fs: Ext4V,
    area: Seq<u8>,
    i: int,
    levels: nat,
    m: Map<int, u64>,
    base: int,
) -> bool {
    exists|x: u32| #[trigger]
        holds_pointer(area, i, x) && pointer_tree(fs, x, levels, m, base)
}

proof fn pointer_reads(d: Seq<u8>, i: int, x: u32)
    requires
        holds_pointer(d, i, x),
        0 <= i,
        4 * i + 4 <= d.len(),
    ensures
        pointer(d, i) == if x == 0 {
            None
        } else {
            Some(x as u64)
        },
{
    le32_of_enc(d, 4 * i, x);
}

proof fn reach_is_power(per: int, levels: nat)
    requires
        per > 0,
    ensures
        reach(per, levels) == pow(per, levels),
        pow(per, levels) > 0,
        levels > 0 ==> pow(per, levels) == per * pow(per, (levels - 1) as nat),
    decreases levels,
{
    reveal(pow);
    if levels > 0 {
        reach_is_power(per, (levels - 1) as nat);
        assert(per * pow(per, (levels - 1) as nat) > 0) by (nonlinear_arith)
            requires
                per > 0,
                pow(per, (levels - 1) as nat) > 0,
        ;
    }
}

proof fn pointers_of_tree(fs: Ext4V, p: u32, levels: nat, m: Map<int, u64>, base: int) -> (s: Seq<
    u32,
>)
    requires
        p != 0,
        levels > 0,
        pointer_tree(fs, p, levels, m, base),
    ensures
        holds_pointers(block_bytes_at(fs, p as u64), s),
        s.len() == per_block(fs),
        forall|i: int|
            0 <= i < s.len() ==> pointer_tree(
                fs,
                #[trigger] s[i],
                (levels - 1) as nat,
                m,
                base + i * pow(per_block(fs), (levels - 1) as nat),
            ),
{
    reveal(pointer_tree);
    choose|s: Seq<u32>| #[trigger]
        holds_pointers(block_bytes_at(fs, p as u64), s) && s.len() == per_block(fs) && forall|i: int|
            0 <= i < s.len() ==> pointer_tree(
                fs,
                #[trigger] s[i],
                (levels - 1) as nat,
                m,
                base + i * pow(per_block(fs), (levels - 1) as nat),
            )
}

/// What is found below a pointer is what the map has.
proof fn below_finds(fs: Ext4V, p: u32, levels: nat, m: Map<int, u64>, base: int, idx: int)
    requires
        fs.disk.len() <= u64::MAX,
        fs.sb.block_size >= 1024,
        pointer_tree(fs, p, levels, m, base),
        p != 0,
        0 <= idx < pow(per_block(fs), levels),
    ensures
        below(fs, p as u64, idx, levels) == Ok::<Option<u64>, Fault>(placed_at(m, base + idx)),
    decreases levels,
{
    reveal(pointer_tree);
    let per = per_block(fs);
    reach_is_power(per, levels);
    if levels > 0 {
        let under = (levels - 1) as nat;
        let stride = pow(per, under);
        reach_is_power(per, under);
        let i = idx / stride;
        let rest = idx % stride;
        vstd::arithmetic::mul::lemma_mul_is_commutative(stride, per);
        vstd::arithmetic::div_mod::lemma_multiply_divide_lt(idx, stride, per);
        vstd::arithmetic::div_mod::lemma_div_pos_is_pos(idx, stride);
        vstd::arithmetic::div_mod::lemma_mod_bound(idx, stride);
        vstd::arithmetic::div_mod::lemma_fundamental_div_mod(idx, stride);
        vstd::arithmetic::mul::lemma_mul_is_commutative(stride, i);
        block_is_read(fs, p as u64);
        let d = block_bytes_at(fs, p as u64);
        let start = base + i * stride;
        let s = pointers_of_tree(fs, p, levels, m, base);
        let x = s[i];
        assert(holds_pointer(d, i, s[i]));
        assert(4 * i + 4 <= d.len());
        pointer_reads(d, i, x);
        assert(base + idx == start + rest);
        if x == 0 {
            assert(!m.contains_key(base + idx));
        } else {
            below_finds(fs, x, under, m, start, rest);
        }
    }
}

/// What is found by way of an inode's pointer is what the map has.
proof fn root_finds(
    fs: Ext4V,
    area: Seq<u8>,
    i: int,
    levels: nat,
    m: Map<int, u64>,
    base: int,
    idx: int,
)
    requires
        fs.disk.len() <= u64::MAX,
        fs.sb.block_size >= 1024,
        area.len() == 60,
        0 <= i < 15,
        root_pointer(fs, area, i, levels, m, base),
        0 <= idx < pow(per_block(fs), levels),
    ensures
        match pointer(area, i) {
            None => placed_at(m, base + idx) is None,
            Some(p) => below(fs, p, idx, levels) == Ok::<Option<u64>, Fault>(
                placed_at(m, base + idx),
            ),
        },
{
    let x = choose|x: u32| #[trigger]
        holds_pointer(area, i, x) && pointer_tree(fs, x, levels, m, base);
    pointer_reads(area, i, x);
    if x == 0 {
        reveal(pointer_tree);
        assert(!m.contains_key(base + idx));
    } else {
        below_finds(fs, x, levels, m, base, idx);
    }
}

/// Behind the last block that an inode's pointers lead to.
pub open spec fn pointers_end(fs: Ext4V) -> int {
    let per = per_block(fs);
    12 + per + per * per + per * per * per
}

/// The lookup by way of an inode's pointers gives what the map gives for which
/// they were written down, at every block.
pub proof fn pointers_read_back(fs: Ext4V, area: Seq<u8>, m: Map<int, u64>, l: u64)
    requires
        fs.disk.len() <= u64::MAX,
        fs.sb.block_size >= 1024,
        area.len() == 60,
        pointers_map(fs, area, m),
        l < pointers_end(fs),
    ensures
        indirect_block(fs, area, l) == Ok::<Option<u64>, Fault>(placed_at(m, l as int)),
{
    let per = per_block(fs);
    reveal_with_fuel(indirect_from, 4);
    reach_is_power(per, 0);
    reach_is_power(per, 1);
    reach_is_power(per, 2);
    reach_is_power(per, 3);
    assert(pow(per, 0) == 1);
    assert(per * 1 == per);
    assert(pow(per, 1) == per);
    assert(pow(per, 2) == per * per);
    assert(pow(per, 3) == per * per * per) by (nonlinear_arith)
        requires
            pow(per, 3) == per * pow(per, 2),
            pow(per, 2) == per * per,
    ;
    if l < 12 {
        assert(root_pointer(fs, area, l as int, 0, m, l as int));
        root_finds(fs, area, l as int, 0, m, l as int, 0);
    } else if l - 12 < per {
        root_finds(fs, area, 12, 1, m, 12, l - 12);
    } else if l - 12 - per < per * per {
        root_finds(fs, area, 13, 2, m, 12 + per, l - 12 - per);
    } else {
        root_finds(fs, area, 14, 3, m, 12 + per + per * per, l - 12 - per - per * per);
    }
}

/// Behind the last block that a file can have.
pub open spec fn file_end(fs: Ext4V, inode: InodeV) -> int {
    if inode.flags & 0x80000 != 0 {
        blocks_end()
    } else {
        pointers_end(fs)
    }
}

/// An inode's block map is `m`: by an extent tree of some height where its flags
/// say so, by pointers where they do not.
pub open spec fn file_maps(fs: Ext4V, inode: InodeV, m: Map<int, u64>) -> bool {
    &&& inode.area.len() == 60
    &&& if inode.flags & 0x80000 != 0 {
        exists|height: nat| #[trigger]
            extent_tree(fs, inode.area, height, m, 0, blocks_end()) && height <= 0xFFFF
    } else {
        pointers_map(fs, inode.area, m)
    }
}

/// Every block that the map leads to is on the device.
pub open spec fn map_there(fs: Ext4V, m: Map<int, u64>) -> bool {
    forall|l: int| #[trigger] m.contains_key(l) ==> block_there(fs, m[l])
}

pub proof fn run_is_mapped(fs: Ext4V, inode: InodeV, m: Map<int, u64>, l: u64)
    requires
        fs.disk.len() <= u64::MAX,
        fs.sb.block_size >= 1024,
        file_maps(fs, inode, m),
        map_there(fs, m),
        l < file_end(fs, inode),
    ensures
        run_of(fs, inode, l) matches Ok(r) && run_follows(m, l as int, file_end(fs, inode), r),
{
    if inode.extents() {
        let height = choose|height: nat| #[trigger]
            extent_tree(fs, inode.area, height, m, 0, blocks_end()) && height <= 0xFFFF;
        extent_tree_reads_back(
            fs,
            inode.area,
            height,
            m,
            0,
            blocks_end(),
            l,
            MAX_EXTENT_DEPTH as nat,
        );
    } else {
        pointers_read_back(fs, inode.area, m, l);
        assert(placed_at(m, l + 0) == placed_at(m, l as int));
    }
}

/// The byte at `pos` of a file whose block map is `m`: that of the block which
/// the map has for it; a block that the map does not have reads as zeros.
pub open spec fn file_byte(fs: Ext4V, m: Map<int, u64>, pos: int) -> u8 {
    let bs = fs.sb.block_size as int;
    if m.contains_key(pos / bs) {
        fs.disk[m[pos / bs] * bs + pos % bs]
    } else {
        0
    }
}

proof fn piece_is_mapped(
    fs: Ext4V,
    m: Map<int, u64>,
    phys: Option<u64>,
    run: u64,
    pos: int,
    take: int,
    hi: int,
)
    requires
        fs.disk.len() <= u64::MAX,
        fs.sb.block_size >= 1024,
        map_there(fs, m),
        pos >= 0,
        0 < take <= run * fs.sb.block_size - pos % fs.sb.block_size as int,
        run_follows(m, pos / fs.sb.block_size as int, hi, (phys, run)),
    ensures
        piece_of(fs, phys, run, pos, take) matches Ok(p) && p.len() == take && forall|k: int|
            0 <= k < take ==> #[trigger] p[k] == file_byte(fs, m, pos + k),
{
    let bs = fs.sb.block_size as int;
    let l = pos / bs;
    if let Some(start) = phys {
        let last = run - 1;
        assert(placed_at(m, l + last) == Some((start + last) as u64));
        assert(block_there(fs, m[l + last]));
        vstd::arithmetic::div_mod::lemma_mod_bound(pos, bs);
        assert(start * bs + run * bs == (start + last) * bs + bs) by (nonlinear_arith)
            requires
                last == run - 1,
        ;
        assert(start * bs >= 0) by (nonlinear_arith)
            requires
                start >= 0,
                bs > 0,
        ;
    }
    let p = piece_of(fs, phys, run, pos, take)->Ok_0;
    assert forall|k: int| 0 <= k < take implies #[trigger] p[k] == file_byte(fs, m, pos + k) by {
        place_later(pos, k, run as int, bs);
        let j = (pos + k) / bs - l;
        assert(placed_at(m, l + j) == match phys {
            Some(start) => Some((start + j) as u64),
            None => None,
        });
        if let Some(start) = phys {
            assert((start + j) * bs + (pos + k) % bs == start * bs + pos % bs + k);
        }
    }
}

proof fn mapped_is_read(fs: Ext4V, inode: InodeV, m: Map<int, u64>, pos: int, want: int)
    requires
        fs.disk.len() <= u64::MAX,
        fs.sb.block_size >= 1024,
        file_maps(fs, inode, m),
        map_there(fs, m),
        pos >= 0,
        want >= 0,
        pos + want <= u64::MAX,
        pos + want <= file_end(fs, inode) * fs.sb.block_size,
    ensures
        mapped_bytes(fs, inode, pos, want) == Ok::<Seq<u8>, Fault>(
            Seq::new(want as nat, |k: int| file_byte(fs, m, pos + k)),
        ),
    decreases want,
{
    let all = Seq::new(want as nat, |k: int| file_byte(fs, m, pos + k));
    if want == 0 {
        assert(all =~= Seq::<u8>::empty());
    } else {
        let bs = fs.sb.block_size as int;
        let l = pos / bs;
        vstd::arithmetic::div_mod::lemma_div_is_ordered_by_denominator(pos, 1, bs);
        vstd::arithmetic::div_mod::lemma_div_pos_is_pos(pos, bs);
        let hi = file_end(fs, inode);
        assert(l < hi) by {
            vstd::arithmetic::mul::lemma_mul_is_commutative(hi, bs);
            vstd::arithmetic::div_mod::lemma_multiply_divide_lt(pos, bs, hi);
        }
        run_is_mapped(fs, inode, m, l as u64);
        let (phys, run) = run_of(fs, inode, l as u64)->Ok_0;
        let take = take_of(pos, want, run, bs);
        take_bounds(pos, want, run, bs);
        piece_is_mapped(fs, m, phys, run, pos, take, hi);
        mapped_is_read(fs, inode, m, pos + take, want - take);
        let p = piece_of(fs, phys, run, pos, take)->Ok_0;
        let rest = mapped_bytes(fs, inode, pos + take, want - take)->Ok_0;
        assert(p + rest =~= all) by {
            assert forall|k: int| 0 <= k < want implies (p + rest)[k] == all[k] by {
                if k >= take {
                    assert(rest[k - take] == file_byte(fs, m, pos + take + (k - take)));
                }
            }
        }
    }
}

/// A file whose block map was written down by the format reads as the map says:
/// byte after byte, whatever the height of its extent tree, or by way of its
/// pointers, up to the end of the file.
pub proof fn file_reads_back(
    fs: Ext4V,
    inode: InodeV,
    m: Map<int, u64>,
    offset: u64,
    len: int,
)
    requires
        fs.disk.len() <= u64::MAX,
        fs.sb.block_size >= 1024,
        file_maps(fs, inode, m),
        map_there(fs, m),
        inode.flags & 0x1000_0000 == 0,
        inode.size <= file_end(fs, inode) * fs.sb.block_size,
        offset <= inode.size,
        0 <= len,
    ensures
        ({
            let n = if len < inode.size - offset {
                len
            } else {
                inode.size - offset
            };
            content(fs, inode, offset, len) == Ok::<Seq<u8>, Fault>(
                Seq::new(n as nat, |k: int| file_byte(fs, m, offset + k)),
            )
        }),
{
    let n = if len < inode.size - offset {
        len
    } else {
        inode.size - offset
    };
    if n > 0 {
        mapped_is_read(fs, inode, m, offset as int, n);
    } else {
        assert(Seq::new(n as nat, |k: int| file_byte(fs, m, offset + k)) =~= Seq::<u8>::empty());
    }
}

/// A file that holds its data itself (flag bit 28) is read from the inode's own 60
/// bytes; a longer one is refused.
pub proof fn inline_reads_back(fs: Ext4V, inode: InodeV, offset: u64, len: int)
    requires
        (inode.flags / 0x1000_0000) % 2 == 1,
        len > 0,
        offset + len <= inode.size,
    ensures
        inode.size <= 60 ==> content(fs, inode, offset, len) == Ok::<Seq<u8>, Fault>(
            inode.area.subrange(offset as int, offset + len),
        ),
        inode.size > 60 ==> content(fs, inode, offset, len) is Err,
{
    let f = inode.flags;
    assert((f / 0x1000_0000) % 2 == 1 ==> f & 0x1000_0000 != 0) by (bit_vector);
}

} // verus!
