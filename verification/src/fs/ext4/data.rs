//! The contents of files.

use vstd::array::array_as_slice;
use vstd::prelude::*;

use crate::bytes::{append_bytes, append_zeros, copy_range, fill_front, zeros};
use crate::device::ReadAt;
use crate::error::{prefixed, text, tracks, Fault, LuksError, Outcome, Result};
use crate::fs::ext4::map::{run_is_not_empty, run_of};
use crate::fs::ext4::volume::{read_from, Ext4, Ext4V, Inode, InodeV, INODE_FL_INLINE_DATA};

verus! {

/// How many of the `want` bytes at `pos` lie in a run of `run` blocks from
/// there on.
pub open spec fn take_of(pos: int, want: int, run: u64, bs: int) -> int {
    let left = run * bs - pos % bs;
    if left < want {
        left
    } else {
        want
    }
}

/// The first `take` bytes at `pos` of a file, which lie in the run of `run`
/// blocks from `phys` on; a hole reads as zeros.
pub open spec fn piece_of(fs: Ext4V, phys: Option<u64>, run: u64, pos: int, take: int) -> Outcome<
    Seq<u8>,
> {
    match phys {
        None => Ok(zeros(take as nat)),
        Some(start) => if start + run > fs.sb.blocks_count {
            Err(Fault::CorruptFs("block pointer past end of filesystem"@))
        } else {
            read_from(
                fs.disk,
                start * fs.sb.block_size + pos % fs.sb.block_size as int,
                take,
            )
        },
    }
}

/// The `want` bytes at `pos` of a file whose blocks are mapped.
pub open spec fn mapped_bytes(fs: Ext4V, inode: InodeV, pos: int, want: int) -> Outcome<Seq<u8>>
    decreases want,
    when fs.sb.block_size > 0 && pos >= 0
    via mapped_bytes_shrink
{
    if want <= 0 {
        Ok(Seq::empty())
    } else {
        match run_of(fs, inode, (pos / fs.sb.block_size as int) as u64) {
            Err(e) => Err(e),
            Ok((phys, run)) => {
                let take = take_of(pos, want, run, fs.sb.block_size as int);
                match piece_of(fs, phys, run, pos, take) {
                    Err(e) => Err(e),
                    Ok(p) => prefixed(p, mapped_bytes(fs, inode, pos + take, want - take)),
                }
            },
        }
    }
}

pub proof fn take_bounds(pos: int, want: int, run: u64, bs: int)
    requires
        bs > 0,
        run >= 1,
        want > 0,
    ensures
        1 <= take_of(pos, want, run, bs) <= want,
        0 <= pos % bs < bs,
        run * bs >= bs,
{
    vstd::arithmetic::div_mod::lemma_mod_bound(pos, bs);
    assert(run * bs >= bs) by (nonlinear_arith)
        requires
            run >= 1,
            bs > 0,
    ;
}

#[via_fn]
proof fn mapped_bytes_shrink(fs: Ext4V, inode: InodeV, pos: int, want: int) {
    let lblock = (pos / fs.sb.block_size as int) as u64;
    run_is_not_empty(fs, inode, lblock);
    if want > 0 {
        match run_of(fs, inode, lblock) {
            Ok((_, run)) => take_bounds(pos, want, run, fs.sb.block_size as int),
            Err(_) => {},
        }
    }
}

/// The bytes of a file from `offset` on, `len` at most and none past its end.
pub open spec fn content(fs: Ext4V, inode: InodeV, offset: u64, len: int) -> Outcome<Seq<u8>> {
    let left = inode.size - offset;
    let want = if len < left {
        len
    } else {
        left
    };
    if want <= 0 {
        Ok(Seq::empty())
    } else if inode.inline_data() {
        if inode.size > 60 {
            Err(Fault::UnsupportedFsFeature("inline_data larger than 60 bytes"@))
        } else {
            Ok(inode.area.subrange(offset as int, offset + want))
        }
    } else {
        mapped_bytes(fs, inode, offset as int, want)
    }
}

/// Whether reading what `want` says into a buffer that held `before` leaves
/// `after` there.
pub open spec fn reads(
    steady: bool,
    before: Seq<u8>,
    after: Seq<u8>,
    r: Result<usize>,
    want: Outcome<Seq<u8>>,
) -> bool {
    match r {
        Ok(n) => want matches Ok(s) && n == s.len() && after == s + before.skip(n as int),
        Err(e) => after == before && (want == Err::<Seq<u8>, Fault>(e@) || (!steady && e@ is Io)),
    }
}

proof fn mapped_len(fs: Ext4V, inode: InodeV, pos: int, want: int)
    requires
        fs.sb.block_size > 0,
        pos >= 0,
        want >= 0,
    ensures
        mapped_bytes(fs, inode, pos, want) matches Ok(s) ==> s.len() == want,
    decreases want,
{
    if want > 0 {
        let bs = fs.sb.block_size as int;
        let lblock = (pos / bs) as u64;
        run_is_not_empty(fs, inode, lblock);
        if let Ok((phys, run)) = run_of(fs, inode, lblock) {
            let take = take_of(pos, want, run, bs);
            take_bounds(pos, want, run, bs);
            mapped_len(fs, inode, pos + take, want - take);
        }
    }
}

/// A read is short only at the end of the file: it gives all that was asked
/// for, or all up to there.
pub proof fn content_len(fs: Ext4V, inode: InodeV, offset: u64, len: int)
    requires
        fs.sb.block_size > 0,
        inode.area.len() == 60,
        len >= 0,
    ensures
        content(fs, inode, offset, len) matches Ok(s) ==> s.len() == if offset >= inode.size {
            0
        } else if len < inode.size - offset {
            len
        } else {
            inode.size - offset
        },
{
    let left = inode.size - offset;
    let want = if len < left {
        len
    } else {
        left
    };
    if want > 0 {
        mapped_len(fs, inode, offset as int, want);
    }
}

impl<D: ReadAt> Ext4<D> {
    fn read_piece(&self, phys: Option<u64>, run: u64, pos: u64, take: usize) -> (r: Result<Vec<u8>>)
        requires
            self@.sb.wf(),
        ensures
            tracks(self.steady(), r, piece_of(self@, phys, run, pos as int, take as int)),
    {
        match phys {
            None => {
                let mut v: Vec<u8> = Vec::new();
                append_zeros(&mut v, take);
                assert(v@ =~= zeros(take as nat));
                Ok(v)
            },
            Some(start) => {
                let past: bool = match start.checked_add(run) {
                    None => true,
                    Some(end) => end > self.superblock().blocks_count,
                };
                if past {
                    return Err(LuksError::CorruptFs("block pointer past end of filesystem"));
                }
                self.read_bytes(start, pos % self.block_size() as u64, take)
            },
        }
    }

    /// Read from a file into `buf`. Holes read as zeros. Returns the bytes read,
    /// which are fewer than `buf` takes only where the file ends; the rest of
    /// `buf` stays as it is.
    pub fn read_inode_data(&self, inode: &Inode, offset: u64, buf: &mut [u8]) -> (r: Result<usize>)
        requires
            self@.sb.wf(),
        ensures
            reads(
                self.steady(),
                old(buf)@,
                final(buf)@,
                r,
                content(self@, inode@, offset, old(buf)@.len() as int),
            ),
    {
        let part = self.read_part(inode, offset, buf.len())?;
        proof {
            content_len(self@, inode@, offset, buf@.len() as int);
        }
        fill_front(buf, part.as_slice());
        Ok(part.len())
    }

    /// Read the file from `offset` on: `len` bytes, or fewer where it ends.
    /// Holes read as zeros.
    pub(crate) fn read_part(&self, inode: &Inode, offset: u64, len: usize) -> (r: Result<Vec<u8>>)
        requires
            self@.sb.wf(),
        ensures
            tracks(self.steady(), r, content(self@, inode@, offset, len as int)),
    {
        let mut out: Vec<u8> = Vec::new();
        assert(out@ =~= Seq::<u8>::empty());
        if offset >= inode.size {
            return Ok(out);
        }
        let left: u64 = inode.size - offset;
        let want: usize = if (len as u64) < left {
            len
        } else {
            left as usize
        };
        if want == 0 {
            return Ok(out);
        }
        if inode.flags & INODE_FL_INLINE_DATA != 0 {
            if inode.size > 60 {
                return Err(
                    LuksError::UnsupportedFsFeature(text("inline_data larger than 60 bytes")),
                );
            }
            let start: usize = offset as usize;
            return Ok(copy_range(array_as_slice(&inode.block_area), start, start + want));
        }
        let bs: u64 = self.block_size() as u64;
        let ghost whole = mapped_bytes(self@, inode@, offset as int, want as int);
        proof {
            match whole {
                Ok(s) => {
                    assert(Seq::<u8>::empty() + s =~= s);
                },
                Err(_) => {},
            }
        }
        let mut done: usize = 0;
        while done < want
            invariant
                done <= want,
                offset + want <= inode.size,
                bs == self@.sb.block_size,
                self@.sb.wf(),
                whole == content(self@, inode@, offset, len as int),
                whole == prefixed(
                    out@,
                    mapped_bytes(self@, inode@, offset + done, want - done),
                ),
            decreases want - done,
        {
            let pos: u64 = offset + done as u64;
            let lblock: u64 = pos / bs;
            let within: u64 = pos % bs;
            let (phys, run) = self.map_run(inode, lblock)?;
            let rest: usize = want - done;
            proof {
                take_bounds(pos as int, rest as int, run, bs as int);
            }
            let in_run: u64 = match run.checked_mul(bs) {
                Some(b) => b - within,
                None => u64::MAX - within,
            };
            let take: usize = if in_run < rest as u64 {
                in_run as usize
            } else {
                rest
            };
            proof {
                if run * bs > u64::MAX {
                    vstd::arithmetic::div_mod::lemma_fundamental_div_mod(pos as int, bs as int);
                    assert(within <= pos) by {
                        vstd::arithmetic::div_mod::lemma_mod_decreases(pos as nat, bs as nat);
                    }
                }
                assert(take == take_of(pos as int, rest as int, run, bs as int));
            }
            let part = self.read_piece(phys, run, pos, take)?;
            let ghost before = out@;
            append_bytes(&mut out, part.as_slice());
            proof {
                match mapped_bytes(self@, inode@, pos + take, rest - take) {
                    Ok(s) => {
                        assert(before + (part@ + s) =~= out@ + s);
                    },
                    Err(_) => {},
                }
            }
            done += take;
        }
        assert(out@ + Seq::<u8>::empty() =~= out@);
        Ok(out)
    }
}

} // verus!
