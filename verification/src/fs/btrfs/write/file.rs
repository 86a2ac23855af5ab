//! Files whose contents arrive piece by piece.

use vstd::prelude::*;

use crate::device::WriteAt;
use crate::error::{modelled, outcome, Fault, LuksError, Outcome, Result};
use crate::fs::btrfs::volume::{Btrfs, FsV, VolV};
use crate::fs::btrfs::write::batch::{opened, Batch, BatchV, WrittenV};
use crate::fs::btrfs::write::extent_tree::cap64;
use crate::fs::btrfs::write::gate::{check_writeable, refusal};
use crate::fs::btrfs::write::load::space_on;
use crate::fs::btrfs::write::ops::{chunk_keeps_geometry, failed, takes_chunk};
use crate::fs::btrfs::write::space::{alloc_run, data_free_sum, mark, BgV, FreeSpaceMap};
use crate::fs::btrfs::write::txn::data::{disk_len, whole_sectors};
use crate::fs::btrfs::write::workspace::StateV;

verus! {

/// A file that is being written.
#[derive(Debug)]
pub struct BtrfsFileWriter {
    pub size: u64,
    pub written_bytes: u64,
    /// Where the data goes: address and length.
    pub data_runs: Vec<(u64, u64)>,
    /// The checksum of each sector, by address.
    pub checksums: Vec<(u64, u32)>,
    pub allocator: FreeSpaceMap,
    pub is_streaming: bool,
    /// The bytes of the last sector, where it is not full yet.
    pub tail_buf: Vec<u8>,
}

/// The mathematical view of a [`BtrfsFileWriter`].
#[verifier::ext_equal]
pub struct WriterV {
    pub size: u64,
    pub written: u64,
    pub runs: Seq<(u64, u64)>,
    pub sums: Seq<(u64, u32)>,
    pub space: Seq<BgV>,
    pub streaming: bool,
    pub tail: Seq<u8>,
}

impl View for BtrfsFileWriter {
    type V = WriterV;

    open spec fn view(&self) -> WriterV {
        WriterV {
            size: self.size,
            written: self.written_bytes,
            runs: self.data_runs@,
            sums: self.checksums@,
            space: self.allocator@,
            streaming: self.is_streaming,
            tail: self.tail_buf@,
        }
    }
}

/// The file as one to be added to a batch.
pub open spec fn as_file(w: WriterV, parent: Seq<char>, name: Seq<char>, sec: u64, nsec: u32) -> WrittenV {
    WrittenV {
        streaming: w.streaming,
        written: w.written,
        declared: w.size,
        runs: w.runs,
        sums: w.sums,
        parent,
        name,
        sec,
        nsec,
        reserved: true,
    }
}

impl BtrfsFileWriter {
    /// The size: as declared, or as written so far where none was declared.
    pub fn size(&self) -> (r: u64)
        ensures
            r == self@.size,
    {
        self.size
    }

    /// The bytes written so far.
    pub fn written_bytes(&self) -> (r: u64)
        ensures
            r == self@.written,
    {
        self.written_bytes
    }

    /// Where the data goes: address and length.
    pub fn data_runs(&self) -> (r: &[(u64, u64)])
        ensures
            r@ == self@.runs,
    {
        self.data_runs.as_slice()
    }

    /// Whether the size was unknown at the start.
    pub fn is_streaming(&self) -> (r: bool)
        ensures
            r == self@.streaming,
    {
        self.is_streaming
    }

    /// The allocator that the data is placed with.
    pub fn allocator(&self) -> (r: &FreeSpaceMap)
        ensures
            r@ == self@.space,
    {
        &self.allocator
    }
}

/// How many chunks a file that is begun may have allocated for it. Each takes
/// bytes of the device that were free, and there are no more bytes than this.
pub const MAX_GROWTH: u64 = u64::MAX;

/// A volume whose batch, if there is one, allocates from `space`.
pub open spec fn with_space(v: VolV, space: Seq<BgV>) -> VolV {
    match v.batch {
        None => v,
        Some(b) => VolV { batch: Some(BatchV { state: StateV { space, ..b.state }, ..b }), ..v },
    }
}

/// The allocator with all of `runs` marked.
pub open spec fn all_marked(space: Seq<BgV>, runs: Seq<(u64, u64)>) -> Outcome<Seq<BgV>>
    decreases runs.len(),
{
    if runs.len() == 0 {
        Ok(space)
    } else {
        match all_marked(space, runs.drop_last()) {
            Err(e) => Err(e),
            Ok(s) => mark(s, runs.last().0, runs.last().1),
        }
    }
}

proof fn all_marked_err(space: Seq<BgV>, runs: Seq<(u64, u64)>, n: int)
    requires
        0 <= n <= runs.len(),
        all_marked(space, runs.take(n)) is Err,
    ensures
        all_marked(space, runs) == all_marked(space, runs.take(n)),
    decreases runs.len() - n,
{
    if n == runs.len() {
        assert(runs.take(n) =~= runs);
    } else {
        assert(runs.take(n + 1).drop_last() =~= runs.take(n));
        all_marked_err(space, runs, n + 1);
    }
}

/// The free space on the volume, with `runs` marked.
pub open spec fn space_beside(fs: FsV, runs: Seq<(u64, u64)>) -> Outcome<Seq<BgV>> {
    match space_on(fs) {
        Err(e) => Err(e),
        Ok(s) => all_marked(s, runs),
    }
}

/// Allocating a chunk and looking at the free space again, with `reserved`
/// kept, may end in `r` and leave `w`.
pub open spec fn grows(v: VolV, reserved: Seq<(u64, u64)>, w: VolV, r: Outcome<Seq<BgV>>) -> bool {
    exists|x: VolV, m: Outcome<u64>| #[trigger]
        takes_chunk(v, reserved, x, m) && match m {
            Err(e) => w == x && r == Err::<Seq<BgV>, Fault>(e),
            Ok(_) => (w == x && failed(x, r)) || match space_beside(x.fs, reserved) {
                Err(e) => w == x && r == Err::<Seq<BgV>, Fault>(e),
                Ok(s) => w == with_space(x, s) && r == Ok::<Seq<BgV>, Fault>(s),
            },
        }
}

/// Allocating chunks, at most `left`, until `need` bytes are free for data may
/// end in `r` and leave `w`.
#[verifier::opaque]
pub open spec fn makes_room(
    v: VolV,
    space: Seq<BgV>,
    need: u64,
    left: nat,
    w: VolV,
    r: Outcome<Seq<BgV>>,
) -> bool
    decreases left,
{
    if cap64(data_free_sum(space)) >= need {
        w == v && r == Ok::<Seq<BgV>, Fault>(space)
    } else if left == 0 {
        w == v && r == Err::<Seq<BgV>, Fault>(Fault::FilesystemFull)
    } else {
        exists|x: VolV, m: Outcome<Seq<BgV>>| #[trigger]
            grows(v, Seq::empty(), x, m) && match m {
                Err(e) => w == x && r == m,
                Ok(s) => makes_room(x, s, need, (left - 1) as nat, w, r),
            }
    }
}

/// Placing `need` more bytes behind `runs`, with at most `left` chunks
/// allocated on the way, may end in `r` and leave `w`.
#[verifier::opaque]
pub open spec fn places(
    v: VolV,
    space: Seq<BgV>,
    runs: Seq<(u64, u64)>,
    need: u64,
    sector: u32,
    left: nat,
    w: VolV,
    r: Outcome<(Seq<BgV>, Seq<(u64, u64)>)>,
) -> bool
    decreases left, need,
{
    if need == 0 {
        w == v && r == Ok::<(Seq<BgV>, Seq<(u64, u64)>), Fault>((space, runs))
    } else {
        match alloc_run(space, need, sector) {
            Some((at, len, rest)) => 0 < len <= need && places(
                v,
                rest,
                runs.push((at, len)),
                (need - len) as u64,
                sector,
                left,
                w,
                r,
            ),
            None => if left == 0 {
                w == v && r == Err::<(Seq<BgV>, Seq<(u64, u64)>), Fault>(Fault::FilesystemFull)
            } else {
                exists|x: VolV, m: Outcome<Seq<BgV>>| #[trigger]
                    grows(v, runs, x, m) && match m {
                        Err(e) => w == x && r == Err::<(Seq<BgV>, Seq<(u64, u64)>), Fault>(e),
                        Ok(s) => places(x, s, runs, need, sector, (left - 1) as nat, w, r),
                    }
            },
        }
    }
}

/// Whatever making room in `u` may come to, making room in `v` may come to.
spec fn room_leads(v: VolV, s: Seq<BgV>, l: nat, u: VolV, t: Seq<BgV>, k: nat, need: u64) -> bool {
    forall|w: VolV, r: Outcome<Seq<BgV>>| #[trigger]
        makes_room(u, t, need, k, w, r) ==> makes_room(v, s, need, l, w, r)
}

proof fn room_ends(v: VolV, s: Seq<BgV>, need: u64, l: nat)
    ensures
        cap64(data_free_sum(s)) >= need ==> makes_room(v, s, need, l, v, Ok(s)),
        cap64(data_free_sum(s)) < need && l == 0 ==> makes_room(
            v,
            s,
            need,
            l,
            v,
            Err(Fault::FilesystemFull),
        ),
{
    reveal(makes_room);
}

proof fn room_grows(v: VolV, s: Seq<BgV>, need: u64, l: nat, x: VolV, m: Outcome<Seq<BgV>>)
    requires
        cap64(data_free_sum(s)) < need,
        l > 0,
        grows(v, Seq::empty(), x, m),
    ensures
        m is Err ==> makes_room(v, s, need, l, x, m),
        m matches Ok(t) ==> room_leads(v, s, l, x, t, (l - 1) as nat, need),
{
    reveal(makes_room);
    if let Ok(t) = m {
        assert forall|w: VolV, r: Outcome<Seq<BgV>>| #[trigger]
            makes_room(x, t, need, (l - 1) as nat, w, r) implies makes_room(
            v,
            s,
            need,
            l,
            w,
            r,
        ) by {}
    }
}

spec fn placement(r: Result<(FreeSpaceMap, Vec<(u64, u64)>)>) -> Outcome<
    (Seq<BgV>, Seq<(u64, u64)>),
> {
    match r {
        Ok(x) => Ok((x.0@, x.1@)),
        Err(e) => Err(e@),
    }
}

/// Whatever placing data in `u` may come to, placing data in `v` may come to.
spec fn place_leads(
    v: VolV,
    s: Seq<BgV>,
    runs: Seq<(u64, u64)>,
    need: u64,
    l: nat,
    u: VolV,
    t: Seq<BgV>,
    more: Seq<(u64, u64)>,
    rest: u64,
    k: nat,
    sector: u32,
) -> bool {
    forall|w: VolV, r: Outcome<(Seq<BgV>, Seq<(u64, u64)>)>| #[trigger]
        places(u, t, more, rest, sector, k, w, r) ==> places(v, s, runs, need, sector, l, w, r)
}

proof fn place_ends(v: VolV, s: Seq<BgV>, runs: Seq<(u64, u64)>, need: u64, sector: u32, l: nat)
    ensures
        need == 0 ==> places(v, s, runs, need, sector, l, v, Ok((s, runs))),
        need > 0 && alloc_run(s, need, sector) is None && l == 0 ==> places(
            v,
            s,
            runs,
            need,
            sector,
            l,
            v,
            Err(Fault::FilesystemFull),
        ),
{
    reveal(places);
}

proof fn place_takes(v: VolV, s: Seq<BgV>, runs: Seq<(u64, u64)>, need: u64, sector: u32, l: nat)
    requires
        need > 0,
    ensures
        match alloc_run(s, need, sector) {
            Some((at, len, rest)) => 0 < len <= need ==> place_leads(
                v,
                s,
                runs,
                need,
                l,
                v,
                rest,
                runs.push((at, len)),
                (need - len) as u64,
                l,
                sector,
            ),
            None => true,
        },
{
    reveal(places);
    if let Some((at, len, rest)) = alloc_run(s, need, sector) {
        if 0 < len <= need {
            assert forall|w: VolV, r: Outcome<(Seq<BgV>, Seq<(u64, u64)>)>| #[trigger]
                places(v, rest, runs.push((at, len)), (need - len) as u64, sector, l, w, r)
                implies places(v, s, runs, need, sector, l, w, r) by {}
        }
    }
}

proof fn place_grows(
    v: VolV,
    s: Seq<BgV>,
    runs: Seq<(u64, u64)>,
    need: u64,
    sector: u32,
    l: nat,
    x: VolV,
    m: Outcome<Seq<BgV>>,
)
    requires
        need > 0,
        alloc_run(s, need, sector) is None,
        l > 0,
        grows(v, runs, x, m),
    ensures
        m matches Err(e) ==> places(v, s, runs, need, sector, l, x, Err(e)),
        m matches Ok(t) ==> place_leads(
            v,
            s,
            runs,
            need,
            l,
            x,
            t,
            runs,
            need,
            (l - 1) as nat,
            sector,
        ),
{
    reveal(places);
    if let Ok(t) = m {
        assert forall|w: VolV, r: Outcome<(Seq<BgV>, Seq<(u64, u64)>)>| #[trigger]
            places(x, t, runs, need, sector, (l - 1) as nat, w, r) implies places(
            v,
            s,
            runs,
            need,
            sector,
            l,
            w,
            r,
        ) by {}
    }
}

/// A writer that has nothing written.
pub open spec fn new_writer(size: u64, runs: Seq<(u64, u64)>, space: Seq<BgV>, streaming: bool) -> WriterV {
    WriterV {
        size,
        written: 0,
        runs,
        sums: Seq::empty(),
        space,
        streaming,
        tail: Seq::empty(),
    }
}

/// Placing a file of `size` bytes, once there is room for it in `space`, may
/// end in `r` and leave `w`.
pub open spec fn begins_placed(v: VolV, space: Seq<BgV>, size: u64, w: VolV, r: Outcome<WriterV>) -> bool {
    let sector = v.fs.sb.sector_size;
    exists|x: VolV, m: Outcome<(Seq<BgV>, Seq<(u64, u64)>)>| #[trigger]
        places(
            v,
            space,
            Seq::empty(),
            disk_len(size as int, sector),
            sector,
            MAX_GROWTH as nat,
            x,
            m,
        ) && match m {
            Err(e) => w == x && r == Err::<WriterV, Fault>(e),
            Ok((s, runs)) => w == (VolV { writer: true, ..with_space(x, s) }) && r == Ok::<
                WriterV,
                Fault,
            >(new_writer(size, runs, s, false)),
        }
}

/// Beginning a file of `size` bytes in a volume with a batch that allocates
/// from `space` may end in `r` and leave `w`.
pub open spec fn begins_with(v: VolV, space: Seq<BgV>, size: u64, w: VolV, r: Outcome<WriterV>) -> bool {
    let need = disk_len(size as int, v.fs.sb.sector_size);
    exists|x: VolV, m: Outcome<Seq<BgV>>| #[trigger]
        makes_room(v, space, need, MAX_GROWTH as nat, x, m) && match m {
            Err(e) => w == x && r == Err::<WriterV, Fault>(e),
            Ok(s) => begins_placed(x, s, size, w, r),
        }
}

/// Opening a batch for a new file, where there is none, may end in `r` and
/// leave `w`.
pub open spec fn readies(v: VolV, now: u64, w: VolV, r: Outcome<Seq<BgV>>) -> bool {
    match refusal(v.fs) {
        Some(e) => w == v && r == Err::<Seq<BgV>, Fault>(e),
        None => if v.writer {
            w == v && r == Err::<Seq<BgV>, Fault>(Fault::WriterBusy)
        } else {
            match v.batch {
                Some(b) => w == v && r == Ok::<Seq<BgV>, Fault>(b.state.space),
                None => (w == v && failed(v, r)) || match opened(v.fs, now) {
                    Err(e) => w == v && r == Err::<Seq<BgV>, Fault>(e),
                    Ok(b) => w == (VolV { batch: Some(b), ..v }) && r == Ok::<Seq<BgV>, Fault>(
                        b.state.space,
                    ),
                },
            }
        },
    }
}

/// Beginning a file of `size` bytes may end in `r` and leave `w`.
pub open spec fn begins(v: VolV, size: u64, now: u64, w: VolV, r: Outcome<WriterV>) -> bool {
    exists|x: VolV, m: Outcome<Seq<BgV>>| #[trigger]
        readies(v, now, x, m) && match m {
            Err(e) => w == x && r == Err::<WriterV, Fault>(e),
            Ok(s) => begins_with(x, s, size, w, r),
        }
}

/// Beginning a file of unknown size may end in `r` and leave `w`.
pub open spec fn begins_streaming(v: VolV, now: u64, w: VolV, r: Outcome<WriterV>) -> bool {
    exists|x: VolV, m: Outcome<Seq<BgV>>| #[trigger]
        readies(v, now, x, m) && match m {
            Err(e) => w == x && r == Err::<WriterV, Fault>(e),
            Ok(s) => w == (VolV { writer: true, ..x }) && r == Ok::<WriterV, Fault>(
                new_writer(0, Seq::empty(), s, true),
            ),
        }
}

impl<D: WriteAt> Btrfs<D> {
    pub(crate) fn set_space(&mut self, a: &FreeSpaceMap)
        ensures
            final(self).state() == with_space(old(self).state(), a@),
    {
        match self.take_batch() {
            None => {
                assert(self.state() =~= old(self).state());
            },
            Some(mut b) => {
                let ghost b0 = b@;
                b.work.allocator = a.clone();
                assert(b@ =~= (BatchV { state: StateV { space: a@, ..b0.state }, ..b0 }));
                self.put_batch(b);
            },
        }
    }

    fn grow(&mut self, reserved: &Vec<(u64, u64)>) -> (r: Result<FreeSpaceMap>)
        ensures
            grows(old(self).state(), reserved@, final(self).state(), modelled(r)),
            final(self).state().fs.sb.sector_size == old(self).state().fs.sb.sector_size,
            final(self).state().fs.sb.wf() == old(self).state().fs.sb.wf(),
    {
        let ghost v = self.state();
        let taken = self.allocate_data_chunk_excluding(reserved.as_slice());
        assert(takes_chunk(v, reserved@, self.state(), outcome(taken)));
        proof {
            chunk_keeps_geometry(v, reserved@, self.state(), outcome(taken));
        }
        let _ = taken?;
        let ghost x = self.state();
        let mut a = FreeSpaceMap::read(self)?;
        let ghost s = a@;
        let n: usize = reserved.len();
        let mut i: usize = 0;
        assert(reserved@.take(0) =~= Seq::<(u64, u64)>::empty());
        while i < n
            invariant
                i <= n,
                n == reserved@.len(),
                self.state() == x,
                v == old(self).state(),
                takes_chunk(v, reserved@, x, outcome(taken)),
                taken is Ok,
                x.fs.sb.sector_size == v.fs.sb.sector_size,
                x.fs.sb.wf() == v.fs.sb.wf(),
                space_on(x.fs) == Ok::<Seq<BgV>, Fault>(s),
                all_marked(s, reserved@.take(i as int)) == Ok::<Seq<BgV>, Fault>(a@),
            decreases n - i,
        {
            let (at, len) = reserved[i];
            proof {
                assert(reserved@.take(i + 1).drop_last() =~= reserved@.take(i as int));
                if all_marked(s, reserved@.take(i + 1)) is Err {
                    all_marked_err(s, reserved@, i + 1);
                }
            }
            a.mark_allocated(at, len)?;
            i += 1;
        }
        assert(reserved@.take(n as int) =~= reserved@);
        self.set_space(&a);
        Ok(a)
    }

    fn make_room(&mut self, space: FreeSpaceMap, need: u64) -> (r: Result<FreeSpaceMap>)
        ensures
            makes_room(
                old(self).state(),
                space@,
                need,
                MAX_GROWTH as nat,
                final(self).state(),
                modelled(r),
            ),
            final(self).state().fs.sb.sector_size == old(self).state().fs.sb.sector_size,
            final(self).state().fs.sb.wf() == old(self).state().fs.sb.wf(),
    {
        let ghost v = self.state();
        let ghost s0 = space@;
        let none: Vec<(u64, u64)> = Vec::new();
        assert(none@ =~= Seq::<(u64, u64)>::empty());
        let mut a = space;
        let mut left: u64 = MAX_GROWTH;
        while a.total_free_data() < need
            invariant
                v == old(self).state(),
                s0 == space@,
                none@ == Seq::<(u64, u64)>::empty(),
                self.state().fs.sb.sector_size == v.fs.sb.sector_size,
                self.state().fs.sb.wf() == v.fs.sb.wf(),
                room_leads(v, s0, MAX_GROWTH as nat, self.state(), a@, left as nat, need),
            decreases left,
        {
            let ghost cur = self.state();
            let ghost s = a@;
            if left == 0 {
                proof {
                    room_ends(cur, s, need, 0);
                }
                return Err(LuksError::FilesystemFull);
            }
            let grown = self.grow(&none);
            proof {
                room_grows(cur, s, need, left as nat, self.state(), modelled(grown));
            }
            a = grown?;
            left -= 1;
        }
        proof {
            room_ends(self.state(), a@, need, left as nat);
        }
        Ok(a)
    }

    fn place(&mut self, space: FreeSpaceMap, need: u64, sector: u32) -> (r: Result<
        (FreeSpaceMap, Vec<(u64, u64)>),
    >)
        requires
            sector > 0,
        ensures
            places(
                old(self).state(),
                space@,
                Seq::empty(),
                need,
                sector,
                MAX_GROWTH as nat,
                final(self).state(),
                placement(r),
            ),
            final(self).state().fs.sb.sector_size == old(self).state().fs.sb.sector_size,
            final(self).state().fs.sb.wf() == old(self).state().fs.sb.wf(),
    {
        let ghost v = self.state();
        let ghost s0 = space@;
        let mut a = space;
        let mut runs: Vec<(u64, u64)> = Vec::new();
        let mut more: u64 = need;
        let mut left: u64 = MAX_GROWTH;
        assert(runs@ =~= Seq::<(u64, u64)>::empty());
        while more > 0
            invariant
                sector > 0,
                v == old(self).state(),
                s0 == space@,
                self.state().fs.sb.sector_size == v.fs.sb.sector_size,
                self.state().fs.sb.wf() == v.fs.sb.wf(),
                place_leads(
                    v,
                    s0,
                    Seq::empty(),
                    need,
                    MAX_GROWTH as nat,
                    self.state(),
                    a@,
                    runs@,
                    more,
                    left as nat,
                    sector,
                ),
            decreases left, more,
        {
            let ghost cur = self.state();
            let ghost s = a@;
            let ghost before = runs@;
            match a.allocate_data_chunk(more, sector) {
                Ok((at, len)) => {
                    proof {
                        place_takes(cur, s, before, more, sector, left as nat);
                    }
                    runs.push((at, len));
                    more -= len;
                },
                Err(_) => {
                    if left == 0 {
                        proof {
                            place_ends(cur, s, before, more, sector, 0);
                        }
                        return Err(LuksError::FilesystemFull);
                    }
                    let grown = self.grow(&runs);
                    proof {
                        place_grows(
                            cur,
                            s,
                            before,
                            more,
                            sector,
                            left as nat,
                            self.state(),
                            modelled(grown),
                        );
                    }
                    a = grown?;
                    left -= 1;
                },
            }
        }
        proof {
            place_ends(self.state(), a@, runs@, 0, sector, left as nat);
        }
        Ok((a, runs))
    }

    fn ready(&mut self, now: u64) -> (r: Result<FreeSpaceMap>)
        ensures
            readies(old(self).state(), now, final(self).state(), modelled(r)),
            final(self).state().fs == old(self).state().fs,
    {
        let ghost v = self.state();
        check_writeable(self)?;
        if self.is_writing() {
            return Err(LuksError::WriterBusy);
        }
        match self.take_batch() {
            Some(b) => {
                let a = b.work.allocator.clone();
                self.put_batch(b);
                assert(self.state() =~= v);
                Ok(a)
            },
            None => {
                assert(self.state() =~= v);
                let b = Batch::open(self, now)?;
                let a = b.work.allocator.clone();
                self.put_batch(b);
                Ok(a)
            },
        }
    }

    /// Begin a file of `size` bytes; `now` is the time in milliseconds. Space
    /// for all of it is set aside, in new chunks where need be.
    pub fn begin_file(&mut self, size: u64, now: u64) -> (r: Result<BtrfsFileWriter>)
        requires
            old(self)@.sb.wf(),
        ensures
            begins(old(self).state(), size, now, final(self).state(), modelled(r)),
            final(self)@.sb.wf(),
            final(self)@.sb.sector_size == old(self)@.sb.sector_size,
    {
        let ghost v = self.state();
        let readied = self.ready(now);
        assert(readies(v, now, self.state(), modelled(readied)));
        let a = readied?;
        let ghost x = self.state();
        let sector: u32 = self.superblock().sector_size;
        let need: u64 = whole_sectors(size, sector);
        let ghost s = a@;
        let room = self.make_room(a, need);
        assert(makes_room(x, s, need, MAX_GROWTH as nat, self.state(), modelled(room)));
        let b = room?;
        let ghost y = self.state();
        let ghost t = b@;
        let placed = self.place(b, need, sector);
        assert(places(
            y,
            t,
            Seq::empty(),
            need,
            sector,
            MAX_GROWTH as nat,
            self.state(),
            placement(placed),
        ));
        let (allocator, data_runs) = placed?;
        self.set_space(&allocator);
        self.set_writing(true);
        Ok(
            BtrfsFileWriter {
                size,
                written_bytes: 0,
                data_runs,
                checksums: Vec::new(),
                allocator,
                is_streaming: false,
                tail_buf: Vec::new(),
            },
        )
    }

    /// Begin a file of unknown size; `now` is the time in milliseconds. Space
    /// is set aside as data arrives, and only from what is free now.
    pub fn begin_file_streaming(&mut self, now: u64) -> (r: Result<BtrfsFileWriter>)
        ensures
            begins_streaming(old(self).state(), now, final(self).state(), modelled(r)),
    {
        let ghost v = self.state();
        let readied = self.ready(now);
        assert(readies(v, now, self.state(), modelled(readied)));
        let allocator = readied?;
        self.set_writing(true);
        Ok(
            BtrfsFileWriter {
                size: 0,
                written_bytes: 0,
                data_runs: Vec::new(),
                checksums: Vec::new(),
                allocator,
                is_streaming: true,
                tail_buf: Vec::new(),
            },
        )
    }
}

} // verus!
