//! Where the blocks of a file are.

use vstd::array::array_as_slice;
use vstd::prelude::*;

use crate::bytes::{copy_bytes, get_u16, get_u32, le16, le32};
use crate::device::ReadAt;
use crate::error::{Fault, LuksError, Outcome, Result};
use crate::fs::btrfs::files::gives;
use crate::fs::ext4::volume::{block_of, Ext4, Ext4V, Inode, InodeV};

verus! {

/// The magic number of an extent tree node.
pub const EXTENT_MAGIC: u16 = 0xF30A;
/// How many nodes of an extent tree are visited at most on the way to a leaf:
/// one more than there are block numbers, so that a longer way would come back
/// to a node it has been at, and never end.
pub const MAX_EXTENT_DEPTH: u64 = 0x1_0000_0000_0001;
/// How many block pointers an inode holds before the indirect ones.
pub const DIRECT_BLOCKS: u64 = 12;

/// A block number of 48 bits.
pub open spec fn wide48(lo: u32, hi: u16) -> u64 {
    (lo + hi * 0x1_0000_0000) as u64
}

/// Where entry `i` of an extent tree node begins.
pub open spec fn entry_at(i: int) -> int {
    12 + 12 * i
}

/// How many blocks an extent covers. A length above 32768 marks an extent that
/// was never written.
pub open spec fn extent_len(raw: u16) -> int {
    if raw > 32768 {
        raw - 32768
    } else {
        raw as int
    }
}

/// Where block `lblock` of the file is, by the extents of a leaf from entry `i`
/// on; and how many blocks from there on lie behind one another. `None` is a
/// hole. A hole behind the last extent is only known to be one block long.
pub open spec fn leaf_run(node: Seq<u8>, i: int, n: int, lblock: u64) -> (Option<u64>, u64)
    decreases n - i,
{
    if i >= n {
        (None, 1)
    } else {
        let o = entry_at(i);
        let first = le32(node, o);
        let raw = le16(node, o + 4);
        let len = extent_len(raw);
        if len > 0 && first <= lblock && lblock < first + len {
            let run = (first + len - lblock) as u64;
            if raw > 32768 {
                (None, run)
            } else {
                (
                    Some(
                        (wide48(le32(node, o + 8), le16(node, o + 6)) + (lblock - first)) as u64,
                    ),
                    run,
                )
            }
        } else if len > 0 && first > lblock {
            (None, (first - lblock) as u64)
        } else {
            leaf_run(node, i + 1, n, lblock)
        }
    }
}

/// The child that covers `lblock`: that of the last leading entry which begins
/// at or before it; `best` if there is none from entry `i` on.
pub open spec fn index_child(node: Seq<u8>, i: int, n: int, lblock: u64, best: Option<u64>) -> Option<
    u64,
>
    decreases n - i,
{
    if i >= n || le32(node, entry_at(i)) > lblock {
        best
    } else {
        let o = entry_at(i);
        index_child(
            node,
            i + 1,
            n,
            lblock,
            Some(wide48(le32(node, o + 4), le16(node, o + 8))),
        )
    }
}

/// Where block `lblock` is, by the extent tree node `node`.
pub open spec fn extent_run(fs: Ext4V, node: Seq<u8>, lblock: u64, depth: nat) -> Outcome<
    (Option<u64>, u64),
>
    decreases depth,
{
    let n = le16(node, 2) as int;
    if depth == 0 {
        Err(Fault::BadExtentTree("extent tree is too deep"@))
    } else if le16(node, 0) != EXTENT_MAGIC {
        Err(Fault::BadExtentHeader(le16(node, 0)))
    } else if entry_at(n) > node.len() {
        Err(Fault::BadExtentTree("entry count exceeds node size"@))
    } else if le16(node, 6) == 0 {
        Ok(leaf_run(node, 0, n, lblock))
    } else {
        match index_child(node, 0, n, lblock, None) {
            None => Err(Fault::BadExtentTree("no index covers this block"@)),
            Some(child) => match block_of(fs, child) {
                Err(e) => Err(e),
                Ok(d) => extent_run(fs, d, lblock, (depth - 1) as nat),
            },
        }
    }
}

/// A block pointer; zero means that there is no block.
pub open spec fn pointer(d: Seq<u8>, i: int) -> Option<u64> {
    if le32(d, 4 * i) == 0 {
        None
    } else {
        Some(le32(d, 4 * i) as u64)
    }
}

/// Blocks below one pointer of `levels` levels.
pub open spec fn reach(per: int, levels: nat) -> int
    decreases levels,
{
    if levels == 0 {
        1
    } else {
        per * reach(per, (levels - 1) as nat)
    }
}

/// Block `idx` below the pointer `ptr` of `levels` levels.
pub open spec fn below(fs: Ext4V, ptr: u64, idx: int, levels: nat) -> Outcome<Option<u64>>
    decreases levels,
{
    if levels == 0 {
        Ok(Some(ptr))
    } else {
        match block_of(fs, ptr) {
            Err(e) => Err(e),
            Ok(d) => {
                let stride = reach(fs.sb.block_size as int / 4, (levels - 1) as nat);
                match pointer(d, idx / stride) {
                    None => Ok(None),
                    Some(p) => below(fs, p, idx % stride, (levels - 1) as nat),
                }
            },
        }
    }
}

/// Where block `idx` behind those of the first `levels - 1` indirect pointers
/// is.
pub open spec fn indirect_from(fs: Ext4V, area: Seq<u8>, idx: int, levels: nat) -> Outcome<Option<u64>>
    decreases 4 - levels,
{
    if levels > 3 {
        Ok(None)
    } else {
        let span = reach(fs.sb.block_size as int / 4, levels);
        if idx < span {
            match pointer(area, 11 + levels as int) {
                None => Ok(None),
                Some(p) => below(fs, p, idx, levels),
            }
        } else {
            indirect_from(fs, area, idx - span, levels + 1)
        }
    }
}

/// Where block `lblock` is, by direct and indirect pointers.
pub open spec fn indirect_block(fs: Ext4V, area: Seq<u8>, lblock: u64) -> Outcome<Option<u64>> {
    if lblock < DIRECT_BLOCKS {
        Ok(pointer(area, lblock as int))
    } else {
        indirect_from(fs, area, lblock - DIRECT_BLOCKS, 1)
    }
}

/// Where block `lblock` of a file is, and how many blocks from there on lie
/// behind one another.
pub open spec fn run_of(fs: Ext4V, inode: InodeV, lblock: u64) -> Outcome<(Option<u64>, u64)> {
    if inode.extents() {
        extent_run(fs, inode.area, lblock, MAX_EXTENT_DEPTH as nat)
    } else {
        match indirect_block(fs, inode.area, lblock) {
            Err(e) => Err(e),
            Ok(b) => Ok((b, 1)),
        }
    }
}

/// A run has at least one block.
pub proof fn run_is_not_empty(fs: Ext4V, inode: InodeV, lblock: u64)
    ensures
        run_of(fs, inode, lblock) matches Ok(x) ==> x.1 >= 1,
{
    if inode.extents() {
        extent_run_not_empty(fs, inode.area, lblock, MAX_EXTENT_DEPTH as nat);
    }
}

proof fn extent_run_not_empty(fs: Ext4V, node: Seq<u8>, lblock: u64, depth: nat)
    ensures
        extent_run(fs, node, lblock, depth) matches Ok(x) ==> x.1 >= 1,
    decreases depth,
{
    let n = le16(node, 2) as int;
    if depth == 0 || le16(node, 0) != EXTENT_MAGIC || entry_at(n) > node.len() {
    } else if le16(node, 6) == 0 {
        leaf_run_not_empty(node, 0, n, lblock);
    } else {
        match index_child(node, 0, n, lblock, None) {
            None => {},
            Some(child) => match block_of(fs, child) {
                Err(_) => {},
                Ok(d) => extent_run_not_empty(fs, d, lblock, (depth - 1) as nat),
            },
        }
    }
}

proof fn leaf_run_not_empty(node: Seq<u8>, i: int, n: int, lblock: u64)
    ensures
        leaf_run(node, i, n, lblock).1 >= 1,
    decreases n - i,
{
    if i < n {
        leaf_run_not_empty(node, i + 1, n, lblock);
    }
}

fn join48(lo: u32, hi: u16) -> (r: u64)
    ensures
        r == wide48(lo, hi),
        r < 0x1_0000_0000_0000,
{
    lo as u64 + hi as u64 * 0x1_0000_0000
}

fn search_leaf(node: &Vec<u8>, n: usize, lblock: u64) -> (r: (Option<u64>, u64))
    requires
        entry_at(n as int) <= node@.len(),
    ensures
        r == leaf_run(node@, 0, n as int, lblock),
{
    let size: usize = node.len();
    let d = node.as_slice();
    let mut i: usize = 0;
    while i < n
        invariant
            i <= n,
            d@ == node@,
            size == node@.len(),
            entry_at(n as int) <= size,
            leaf_run(node@, 0, n as int, lblock) == leaf_run(node@, i as int, n as int, lblock),
        decreases n - i,
    {
        let o: usize = 12 + 12 * i;
        let first: u64 = get_u32(d, o) as u64;
        let raw: u16 = get_u16(d, o + 4);
        let len: u64 = if raw > 32768 {
            (raw - 32768) as u64
        } else {
            raw as u64
        };
        if len > 0 {
            if lblock >= first && lblock < first + len {
                let skip: u64 = lblock - first;
                let run: u64 = len - skip;
                if raw > 32768 {
                    return (None, run);
                }
                return (Some(join48(get_u32(d, o + 8), get_u16(d, o + 6)) + skip), run);
            }
            if first > lblock {
                return (None, first - lblock);
            }
        }
        i += 1;
    }
    (None, 1)
}

fn search_index(node: &Vec<u8>, n: usize, lblock: u64) -> (r: Option<u64>)
    requires
        entry_at(n as int) <= node@.len(),
    ensures
        r == index_child(node@, 0, n as int, lblock, None),
{
    let size: usize = node.len();
    let d = node.as_slice();
    let mut best: Option<u64> = None;
    let mut i: usize = 0;
    while i < n && get_u32(d, 12 + 12 * i) as u64 <= lblock
        invariant
            i <= n,
            d@ == node@,
            size == node@.len(),
            entry_at(n as int) <= size,
            index_child(node@, 0, n as int, lblock, None) == index_child(
                node@,
                i as int,
                n as int,
                lblock,
                best,
            ),
        decreases n - i,
    {
        let o: usize = 12 + 12 * i;
        best = Some(join48(get_u32(d, o + 4), get_u16(d, o + 8)));
        i += 1;
    }
    best
}

proof fn reach_facts(per: int)
    requires
        256 <= per <= 16384,
    ensures
        reach(per, 0) == 1,
        reach(per, 1) == per,
        reach(per, 2) == per * per,
        reach(per, 3) == per * (per * per),
        0 < per * per <= 16384 * 16384,
        0 < per * (per * per) <= 16384 * (16384 * 16384),
{
    reveal_with_fuel(reach, 4);
    assert(per * 1 == per);
    assert(0 < per * per <= 16384 * 16384) by (nonlinear_arith)
        requires
            256 <= per <= 16384,
    ;
    assert(0 < per * (per * per) <= 16384 * (16384 * 16384)) by (nonlinear_arith)
        requires
            256 <= per <= 16384,
            0 < per * per <= 16384 * 16384,
    ;
}

impl<D: ReadAt> Ext4<D> {
    /// Where block `lblock` of the file is, by its extent tree; and how many
    /// blocks from there on lie behind one another.
    fn map_run_extents(&self, inode: &Inode, lblock: u64) -> (r: Result<(Option<u64>, u64)>)
        requires
            self@.sb.wf(),
        ensures
            gives(
                self.steady(),
                r,
                extent_run(self@, inode@.area, lblock, MAX_EXTENT_DEPTH as nat),
            ),
    {
        let mut node = copy_bytes(array_as_slice(&inode.block_area));
        let mut left: u64 = MAX_EXTENT_DEPTH;
        while left > 0
            invariant
                self@.sb.wf(),
                node@.len() >= 60,
                extent_run(self@, inode@.area, lblock, MAX_EXTENT_DEPTH as nat) == extent_run(
                    self@,
                    node@,
                    lblock,
                    left as nat,
                ),
            decreases left,
        {
            let magic: u16 = get_u16(node.as_slice(), 0);
            if magic != EXTENT_MAGIC {
                return Err(LuksError::BadExtentHeader(magic));
            }
            let n: usize = get_u16(node.as_slice(), 2) as usize;
            let depth: u16 = get_u16(node.as_slice(), 6);
            if 12 + n * 12 > node.len() {
                return Err(LuksError::BadExtentTree("entry count exceeds node size"));
            }
            if depth == 0 {
                return Ok(search_leaf(&node, n, lblock));
            }
            match search_index(&node, n, lblock) {
                None => {
                    return Err(LuksError::BadExtentTree("no index covers this block"));
                },
                Some(child) => {
                    node = self.read_block(child)?;
                },
            }
            left -= 1;
        }
        Err(LuksError::BadExtentTree("extent tree is too deep"))
    }

    fn descend(&self, ptr: u64, idx: u64, levels: u32) -> (r: Result<Option<u64>>)
        requires
            self@.sb.wf(),
            levels <= 3,
            idx < reach(self@.sb.block_size as int / 4, levels as nat),
        ensures
            gives(self.steady(), r, below(self@, ptr, idx as int, levels as nat)),
    {
        let per: u64 = (self.block_size() / 4) as u64;
        proof {
            reach_facts(per as int);
        }
        let mut at: u64 = ptr;
        let mut rest: u64 = idx;
        let mut left: u32 = levels;
        while left > 0
            invariant
                self@.sb.wf(),
                left <= levels <= 3,
                per == self@.sb.block_size as int / 4,
                256 <= per <= 16384,
                per * 4 == self@.sb.block_size,
                reach(per as int, 0) == 1,
                reach(per as int, 1) == per,
                reach(per as int, 2) == per * per,
                reach(per as int, 3) == per * (per * per),
                0 < per * per <= 16384 * 16384,
                0 < per * (per * per) <= 16384 * (16384 * 16384),
                rest < reach(per as int, left as nat),
                below(self@, ptr, idx as int, levels as nat) == below(
                    self@,
                    at,
                    rest as int,
                    left as nat,
                ),
            decreases left,
        {
            let stride: u64 = if left == 1 {
                1
            } else if left == 2 {
                per
            } else {
                per * per
            };
            proof {
                assert(stride == reach(per as int, (left - 1) as nat));
                assert(rest < per * stride);
                vstd::arithmetic::mul::lemma_mul_is_commutative(stride as int, per as int);
                vstd::arithmetic::div_mod::lemma_multiply_divide_lt(
                    rest as int,
                    stride as int,
                    per as int,
                );
                vstd::arithmetic::div_mod::lemma_mod_bound(rest as int, stride as int);
            }
            let slot: u64 = rest / stride;
            let d = self.read_block(at)?;
            let next: u32 = get_u32(d.as_slice(), slot as usize * 4);
            if next == 0 {
                return Ok(None);
            }
            at = next as u64;
            rest = rest % stride;
            left -= 1;
        }
        Ok(Some(at))
    }

    /// Where block `lblock` of the file is, by direct and indirect pointers.
    fn map_via_indirect(&self, inode: &Inode, lblock: u64) -> (r: Result<Option<u64>>)
        requires
            self@.sb.wf(),
        ensures
            gives(self.steady(), r, indirect_block(self@, inode@.area, lblock)),
    {
        let area = array_as_slice(&inode.block_area);
        if lblock < DIRECT_BLOCKS {
            let p: u32 = get_u32(area, lblock as usize * 4);
            return Ok(
                if p == 0 {
                    None
                } else {
                    Some(p as u64)
                },
            );
        }
        let per: u64 = (self.block_size() / 4) as u64;
        proof {
            reach_facts(per as int);
            reveal_with_fuel(indirect_from, 5);
        }
        let mut idx: u64 = lblock - DIRECT_BLOCKS;
        let mut levels: u32 = 1;
        let mut span: u64 = per;
        while levels <= 3
            invariant
                self@.sb.wf(),
                area@ == inode@.area,
                1 <= levels <= 4,
                per == self@.sb.block_size as int / 4,
                256 <= per <= 16384,
                reach(per as int, 1) == per,
                reach(per as int, 2) == per * per,
                reach(per as int, 3) == per * (per * per),
                0 < per * per <= 16384 * 16384,
                0 < per * (per * per) <= 16384 * (16384 * 16384),
                levels <= 3 ==> span == reach(per as int, levels as nat),
                lblock >= DIRECT_BLOCKS,
                indirect_block(self@, inode@.area, lblock) == indirect_from(
                    self@,
                    inode@.area,
                    idx as int,
                    levels as nat,
                ),
            decreases 4 - levels,
        {
            if idx < span {
                let p: u32 = get_u32(area, (11 + levels as usize) * 4);
                if p == 0 {
                    return Ok(None);
                }
                return self.descend(p as u64, idx, levels);
            }
            idx = idx - span;
            levels += 1;
            if levels <= 3 {
                span = if levels == 2 {
                    per * per
                } else {
                    per * (per * per)
                };
            }
        }
        Ok(None)
    }

    /// Where block `lblock` of the file is, and how many blocks from there on
    /// lie behind one another. `None` is a hole.
    pub(crate) fn map_run(&self, inode: &Inode, lblock: u64) -> (r: Result<(Option<u64>, u64)>)
        requires
            self@.sb.wf(),
        ensures
            gives(self.steady(), r, run_of(self@, inode@, lblock)),
            r matches Ok(x) ==> x.1 >= 1,
    {
        proof {
            run_is_not_empty(self@, inode@, lblock);
        }
        if inode.flags & crate::fs::ext4::volume::INODE_FL_EXTENTS != 0 {
            self.map_run_extents(inode, lblock)
        } else {
            let b = self.map_via_indirect(inode, lblock)?;
            Ok((b, 1))
        }
    }
}

} // verus!
