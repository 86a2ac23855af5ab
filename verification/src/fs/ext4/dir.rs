//! Directories.

use vstd::prelude::*;

use crate::bytes::{copy_range, get_u16, get_u32, le16, le32};
use crate::device::ReadAt;
use crate::error::{Fault, Outcome, Result};
use crate::fs::btrfs::write::cow::agrees;
use crate::fs::btrfs::write::payload::ceil_div;
use crate::fs::lossy::{lossy_text, text_of_bytes};
use crate::fs::ext4::map::run_of;
use crate::fs::ext4::volume::{
    block_of, inode_of, Ext4, Ext4V, Inode, InodeV, INCOMPAT_FILETYPE,
};
use crate::fs::{entry_type, type_of_entry, DirEntry, FileType};

verus! {

/// A directory entry as it is stored.
#[derive(Debug)]
pub struct RawEntry {
    pub name: Vec<u8>,
    pub inode: u64,
    /// The type byte; it counts only where the filesystem keeps types here.
    pub kind: u8,
}

/// The mathematical view of a [`RawEntry`].
pub struct RawV {
    pub name: Seq<u8>,
    pub inode: u64,
    pub kind: u8,
}

impl View for RawEntry {
    type V = RawV;

    open spec fn view(&self) -> RawV {
        RawV { name: self.name@, inode: self.inode, kind: self.kind }
    }
}

/// The views of a sequence of entries.
pub open spec fn raws_of(s: Seq<RawEntry>) -> Seq<RawV> {
    s.map_values(|e: RawEntry| e@)
}

/// Whether a name is `.` or `..`.
pub open spec fn is_dots(name: Seq<u8>) -> bool {
    name == seq![46u8] || name == seq![46u8, 46u8]
}

/// Whether the record length at `pos` makes sense.
pub open spec fn record_fits(block: Seq<u8>, pos: int) -> bool {
    let len = le16(block, pos + 4);
    len >= 8 && len % 4 == 0 && pos + len <= block.len()
}

/// The entry at `pos`, unless it is unused, cut off, or one of `.` and `..`.
pub open spec fn entry_here(block: Seq<u8>, pos: int) -> Seq<RawV> {
    let ino = le32(block, pos);
    let n = block[pos + 6] as int;
    if ino == 0 || pos + 8 + n > block.len() || is_dots(block.subrange(pos + 8, pos + 8 + n)) {
        Seq::empty()
    } else {
        seq![
            RawV {
                name: block.subrange(pos + 8, pos + 8 + n),
                inode: ino as u64,
                kind: block[pos + 7],
            },
        ]
    }
}

/// The entries of a directory block from `pos` on, up to the first record that
/// makes no sense.
pub open spec fn block_entries(block: Seq<u8>, pos: int) -> Seq<RawV>
    decreases block.len() - pos,
{
    if pos < 0 || pos + 8 > block.len() || !record_fits(block, pos) {
        Seq::empty()
    } else {
        entry_here(block, pos) + block_entries(block, pos + le16(block, pos + 4))
    }
}

/// The entries in block `lblock` of a directory; a hole has none.
pub open spec fn entries_at(fs: Ext4V, dir: InodeV, lblock: u64) -> Outcome<Seq<RawV>> {
    match run_of(fs, dir, lblock) {
        Err(e) => Err(e),
        Ok((None, _)) => Ok(Seq::empty()),
        Ok((Some(b), _)) => match block_of(fs, b) {
            Err(e) => Err(e),
            Ok(block) => Ok(block_entries(block, 0)),
        },
    }
}

/// The entries in the first `n` blocks of a directory.
pub open spec fn entries_upto(fs: Ext4V, dir: InodeV, n: nat) -> Outcome<Seq<RawV>>
    decreases n,
{
    if n == 0 {
        Ok(Seq::empty())
    } else {
        match entries_upto(fs, dir, (n - 1) as nat) {
            Err(e) => Err(e),
            Ok(s) => match entries_at(fs, dir, (n - 1) as u64) {
                Err(e) => Err(e),
                Ok(t) => Ok(s + t),
            },
        }
    }
}

/// All entries of a directory but `.` and `..`.
pub open spec fn raw_entries(fs: Ext4V, dir: InodeV) -> Outcome<Seq<RawV>> {
    entries_upto(fs, dir, ceil_div(dir.size as int, fs.sb.block_size as int) as nat)
}

proof fn entries_upto_err(fs: Ext4V, dir: InodeV, n: nat, m: nat)
    requires
        n <= m,
        entries_upto(fs, dir, n) is Err,
    ensures
        entries_upto(fs, dir, m) == entries_upto(fs, dir, n),
    decreases m,
{
    if n < m {
        entries_upto_err(fs, dir, n, (m - 1) as nat);
    }
}

/// Whether `t` can be the type given for entry `e`: the entry's own where the
/// filesystem keeps types there; else that of the inode, or `Unknown` where the
/// inode could not be read.
pub open spec fn type_given(fs: Ext4V, steady: bool, e: RawV, t: FileType) -> bool {
    if fs.sb.feature_incompat & INCOMPAT_FILETYPE != 0 {
        t == entry_type(e.kind)
    } else {
        match inode_of(fs, e.inode) {
            Ok(i) => t == i.kind() || (!steady && t == FileType::Unknown),
            Err(_) => t == FileType::Unknown,
        }
    }
}

/// Whether `d` is the entry `e`, with its name as text.
pub open spec fn entry_given(fs: Ext4V, steady: bool, e: RawV, d: DirEntry) -> bool {
    &&& d.name@ == lossy_text(e.name)
    &&& d.inode == e.inode
    &&& !d.is_subvolume
    &&& type_given(fs, steady, e, d.file_type)
}

/// Whether `r` lists the directory `dir`.
pub open spec fn lists_dir(fs: Ext4V, steady: bool, dir: InodeV, r: Result<Vec<DirEntry>>) -> bool {
    match r {
        Ok(v) => raw_entries(fs, dir) matches Ok(raws) && v@.len() == raws.len() && forall|i: int|
            0 <= i < raws.len() ==> entry_given(fs, steady, raws[i], #[trigger] v@[i]),
        Err(e) => raw_entries(fs, dir) == Err::<Seq<RawV>, Fault>(e@) || (!steady && e@ is Io),
    }
}

fn is_dots_name(name: &Vec<u8>) -> (r: bool)
    ensures
        r == is_dots(name@),
{
    let n: usize = name.len();
    if n == 1 {
        if name[0] == 46 {
            assert(name@ =~= seq![46u8]);
            return true;
        }
    }
    if n == 2 {
        if name[0] == 46 && name[1] == 46 {
            assert(name@ =~= seq![46u8, 46u8]);
            return true;
        }
    }
    proof {
        if name@ == seq![46u8] {
            assert(name@.len() == 1 && name@[0] == 46);
        }
        if name@ == seq![46u8, 46u8] {
            assert(name@.len() == 2 && name@[0] == 46 && name@[1] == 46);
        }
    }
    false
}

fn scan_block(block: &Vec<u8>, out: &mut Vec<RawEntry>)
    requires
        block@.len() <= 65536,
    ensures
        raws_of(final(out)@) == raws_of(old(out)@) + block_entries(block@, 0),
{
    let ghost start = raws_of(out@);
    let ghost whole = start + block_entries(block@, 0);
    let b = block.as_slice();
    let n: usize = block.len();
    let mut pos: usize = 0;
    while pos + 8 <= n
        invariant
            pos <= n <= 65536,
            n == block@.len(),
            b@ == block@,
            whole == raws_of(out@) + block_entries(block@, pos as int),
        ensures
            whole == raws_of(out@),
        decreases n - pos,
    {
        let ino: u32 = get_u32(b, pos);
        let len: usize = get_u16(b, pos + 4) as usize;
        if len < 8 || len % 4 != 0 || pos + len > n {
            assert(raws_of(out@) + Seq::<RawV>::empty() =~= raws_of(out@));
            break;
        }
        let ghost here = entry_here(block@, pos as int);
        let ghost before = raws_of(out@);
        let name_len: usize = block[pos + 6] as usize;
        if ino != 0 && pos + 8 + name_len <= n {
            let name = copy_range(b, pos + 8, pos + 8 + name_len);
            if !is_dots_name(&name) {
                let ghost prior = out@;
                let e = RawEntry { name, inode: ino as u64, kind: block[pos + 7] };
                out.push(e);
                assert(raws_of(out@) =~= raws_of(prior).push(e@));
                assert(raws_of(out@) =~= before + here);
            } else {
                assert(before + here =~= before);
            }
        } else {
            assert(before + here =~= before);
        }
        proof {
            let rest = block_entries(block@, pos + len);
            assert(before + (here + rest) =~= raws_of(out@) + rest);
        }
        pos += len;
        assert(pos + 8 > n ==> raws_of(out@) + Seq::<RawV>::empty() =~= raws_of(out@));
    }
}

impl<D: ReadAt> Ext4<D> {
    /// Read the entries of a directory but `.` and `..`.
    pub(crate) fn list_raw(&self, dir: &Inode) -> (r: Result<Vec<RawEntry>>)
        requires
            self@.sb.wf(),
        ensures
            agrees(
                self.steady(),
                r,
                raw_entries(self@, dir@),
                |v: Vec<RawEntry>| raws_of(v@),
            ),
    {
        let bs: u64 = self.block_size() as u64;
        let q: u64 = dir.size / bs;
        let n: u64 = if dir.size % bs == 0 {
            q
        } else {
            proof {
                if dir.size == 0 {
                    vstd::arithmetic::div_mod::lemma_small_mod(0, bs as nat);
                }
                vstd::arithmetic::div_mod::lemma_div_decreases(dir.size as int, bs as int);
            }
            q + 1
        };
        let mut out: Vec<RawEntry> = Vec::new();
        let mut i: u64 = 0;
        assert(raws_of(out@) =~= Seq::<RawV>::empty());
        while i < n
            invariant
                i <= n,
                n == ceil_div(dir@.size as int, self@.sb.block_size as int),
                self@.sb.wf(),
                entries_upto(self@, dir@, i as nat) == Ok::<Seq<RawV>, Fault>(raws_of(out@)),
            decreases n - i,
        {
            proof {
                if entries_upto(self@, dir@, (i + 1) as nat) is Err {
                    entries_upto_err(self@, dir@, (i + 1) as nat, n as nat);
                }
            }
            let (phys, _) = self.map_run(dir, i)?;
            match phys {
                Some(b) => {
                    let block = self.read_block(b)?;
                    scan_block(&block, &mut out);
                },
                None => {
                    assert(raws_of(out@) + Seq::<RawV>::empty() =~= raws_of(out@));
                },
            }
            i += 1;
        }
        Ok(out)
    }

    /// List a directory; `.` and `..` are left out.
    pub(crate) fn list_inode(&self, dir: &Inode) -> (r: Result<Vec<DirEntry>>)
        requires
            self@.sb.wf(),
        ensures
            lists_dir(self@, self.steady(), dir@, r),
    {
        let raws = self.list_raw(dir)?;
        let ghost all = raws_of(raws@);
        let typed: bool = self.superblock().feature_incompat & INCOMPAT_FILETYPE != 0;
        let n: usize = raws.len();
        let mut out: Vec<DirEntry> = Vec::new();
        let mut i: usize = 0;
        while i < n
            invariant
                i <= n,
                n == raws@.len(),
                all == raws_of(raws@),
                self@.sb.wf(),
                raw_entries(self@, dir@) == Ok::<Seq<RawV>, Fault>(all),
                typed == (self@.sb.feature_incompat & INCOMPAT_FILETYPE != 0),
                out@.len() == i,
                forall|j: int|
                    0 <= j < i ==> entry_given(self@, self.steady(), all[j], #[trigger] out@[j]),
            decreases n - i,
        {
            let e = &raws[i];
            assert(all[i as int] == e@);
            let file_type = if typed {
                type_of_entry(e.kind)
            } else {
                match self.read_inode(e.inode) {
                    Ok(x) => x.file_type(),
                    Err(_) => FileType::Unknown,
                }
            };
            let d = DirEntry {
                name: text_of_bytes(e.name.as_slice()),
                inode: e.inode,
                file_type,
                is_subvolume: false,
            };
            assert(entry_given(self@, self.steady(), all[i as int], d));
            out.push(d);
            i += 1;
        }
        Ok(out)
    }
}

} // verus!
