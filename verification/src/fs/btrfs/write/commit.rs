//! Writing transactions to the device.
//!
//! The order is strict: file data and tree blocks go to every copy, then the
//! device is flushed, then the superblock copies are written, then the device
//! is flushed again. Until the superblock is written the old trees are still
//! the ones that count. The superblock copies carry the transaction's
//! generation, and the mark that vouches for the free-space tree is cleared.

use vstd::prelude::*;

use crate::bytes::splice;
use crate::device::{image_read, DeviceOp, ReadAt, WriteAt};
use crate::error::{outcome, Fault, LuksError, Outcome, Result};
use crate::fs::btrfs::blocks::{addresses_of, lists, BlockMap};
use crate::fs::btrfs::chunk::{locate, ChunkV};
use crate::fs::btrfs::superblock::{
    parse_super, super_copy, SuperV, Superblock, BTRFS_FEATURE_COMPAT_RO_FREE_SPACE_TREE_VALID,
    SUPER_OFFSET_0, SUPER_OFFSET_1, SUPER_OFFSET_2, SUPER_SIZE,
};
use crate::fs::btrfs::volume::{Btrfs, FsV, VolV};
use crate::fs::btrfs::write::payload::pairs_of;
use crate::fs::btrfs::write::txn::{Transaction, TxnV};

verus! {

/// What playing a script on a device comes to.
#[verifier::ext_equal]
pub struct Played {
    pub disk: Seq<u8>,
    /// What was done, in order.
    pub done: Seq<DeviceOp>,
    /// Why the script was cut short.
    pub fault: Option<Fault>,
}

/// Play a script on a device: each step is something to do, or a fault that
/// ends the script. A write past the end of the device ends it too.
pub open spec fn played(disk: Seq<u8>, script: Seq<Outcome<DeviceOp>>) -> Played
    decreases script.len(),
{
    if script.len() == 0 {
        Played { disk, done: Seq::empty(), fault: None }
    } else {
        let p = played(disk, script.drop_last());
        if p.fault is Some {
            p
        } else {
            match script.last() {
                Err(e) => Played { fault: Some(e), ..p },
                Ok(DeviceOp::Flush) => Played { done: p.done.push(DeviceOp::Flush), ..p },
                Ok(DeviceOp::Write { offset, data }) => if offset + data.len() <= p.disk.len() {
                    Played {
                        disk: splice(p.disk, offset, data),
                        done: p.done.push(DeviceOp::Write { offset, data }),
                        ..p
                    }
                } else {
                    Played { fault: Some(Fault::Io), ..p }
                },
            }
        }
    }
}

/// Playing two scripts in a row is playing one.
pub proof fn played_concat(disk: Seq<u8>, a: Seq<Outcome<DeviceOp>>, b: Seq<Outcome<DeviceOp>>)
    ensures
        played(disk, a + b) == ({
            let p = played(disk, a);
            if p.fault is Some {
                p
            } else {
                let q = played(p.disk, b);
                Played { disk: q.disk, done: p.done + q.done, fault: q.fault }
            }
        }),
    decreases b.len(),
{
    if b.len() == 0 {
        assert(a + b =~= a);
        let p = played(disk, a);
        assert(p.done + Seq::<DeviceOp>::empty() =~= p.done);
    } else {
        played_concat(disk, a, b.drop_last());
        assert((a + b).drop_last() =~= a + b.drop_last());
        assert((a + b).last() == b.last());
        let p = played(disk, a);
        if p.fault is None {
            let q = played(p.disk, b.drop_last());
            if q.fault is None {
                match b.last() {
                    Ok(op) => {
                        assert((p.done + q.done).push(op) =~= p.done + q.done.push(op));
                    },
                    Err(_) => {},
                }
            }
        }
    }
}

/// Playing a script does not change how much the device holds.
pub proof fn played_len(disk: Seq<u8>, s: Seq<Outcome<DeviceOp>>)
    ensures
        played(disk, s).disk.len() == disk.len(),
    decreases s.len(),
{
    if s.len() > 0 {
        played_len(disk, s.drop_last());
    }
}

/// Write `data` at every place.
pub open spec fn copies(places: Seq<u64>, data: Seq<u8>) -> Seq<Outcome<DeviceOp>> {
    places.map_values(
        |p: u64| Ok::<DeviceOp, Fault>(DeviceOp::Write { offset: p as int, data }),
    )
}

/// Write `data` to every copy of the logical address `at`.
pub open spec fn block_script(chunks: Seq<ChunkV>, at: u64, data: Seq<u8>) -> Seq<
    Outcome<DeviceOp>,
> {
    match locate(chunks, at) {
        Err(e) => seq![Err(e)],
        Ok((places, _)) => copies(places, data),
    }
}

/// Write file data.
pub open spec fn data_script(chunks: Seq<ChunkV>, data: Seq<(u64, Seq<u8>)>) -> Seq<
    Outcome<DeviceOp>,
>
    decreases data.len(),
{
    if data.len() == 0 {
        Seq::empty()
    } else {
        data_script(chunks, data.drop_last()) + block_script(
            chunks,
            data.last().0,
            data.last().1,
        )
    }
}

/// Write the tree blocks at these addresses.
pub open spec fn tree_script(chunks: Seq<ChunkV>, blocks: Map<u64, Seq<u8>>, at: Seq<u64>) -> Seq<
    Outcome<DeviceOp>,
>
    decreases at.len(),
{
    if at.len() == 0 {
        Seq::empty()
    } else {
        tree_script(chunks, blocks, at.drop_last()) + block_script(
            chunks,
            at.last(),
            blocks[at.last()],
        )
    }
}

/// Write a superblock copy, unless it lies past the end of the device.
pub open spec fn copy_script(sb: SuperV, template: Seq<u8>, at: u64, len: Option<u64>) -> Seq<
    Outcome<DeviceOp>,
> {
    if len is Some && at + SUPER_SIZE > len->Some_0 {
        Seq::empty()
    } else {
        seq![
            Ok(
                DeviceOp::Write { offset: at as int, data: super_copy(sb, template, at) },
            ),
        ]
    }
}

/// Write all superblock copies.
pub open spec fn super_script(sb: SuperV, template: Seq<u8>, len: Option<u64>) -> Seq<
    Outcome<DeviceOp>,
> {
    copy_script(sb, template, SUPER_OFFSET_0, len) + copy_script(sb, template, SUPER_OFFSET_1, len)
        + copy_script(sb, template, SUPER_OFFSET_2, len)
}

/// Flush the device.
pub open spec fn flush_script() -> Seq<Outcome<DeviceOp>> {
    seq![Ok(DeviceOp::Flush)]
}

/// The superblock that a transaction leads to. Its free-space tree is no
/// longer marked as one to be relied on.
pub open spec fn next_super(sb: SuperV, t: TxnV) -> SuperV {
    let a = SuperV {
        generation: t.generation,
        root: t.root.0,
        root_level: t.root.1,
        bytes_used: t.bytes_used,
        compat_ro_flags: sb.compat_ro_flags & !BTRFS_FEATURE_COMPAT_RO_FREE_SPACE_TREE_VALID,
        ..sb
    };
    match t.chunk_root {
        Some(c) => SuperV {
            chunk_root: c.0,
            chunk_root_level: c.1,
            chunk_root_generation: t.generation,
            ..a
        },
        None => a,
    }
}

/// Everything but the superblock copies and the last flush.
pub open spec fn body_script(chunks: Seq<ChunkV>, t: TxnV) -> Seq<Outcome<DeviceOp>> {
    data_script(chunks, t.data) + tree_script(chunks, t.blocks, addresses_of(t.blocks))
        + flush_script()
}

/// All that a commit does, over the superblock `template`.
pub open spec fn commit_script(fs: FsV, len: Option<u64>, t: TxnV, template: Seq<u8>) -> Seq<
    Outcome<DeviceOp>,
> {
    body_script(fs.chunks, t) + super_script(next_super(fs.sb, t), template, len) + flush_script()
}

/// The superblock copy that a commit builds on: the first one, which must be
/// valid.
pub open spec fn template_of(fs: FsV) -> Outcome<Seq<u8>> {
    match image_read(fs.disk, SUPER_OFFSET_0 as int, SUPER_SIZE as int) {
        Err(e) => Err(e),
        Ok(raw) => match parse_super(raw, SUPER_OFFSET_0) {
            Err(e) => Err(e),
            Ok(_) => Ok(raw),
        },
    }
}

/// The volume once `t` is committed, and what was done to the device.
pub open spec fn committed(fs: FsV, len: Option<u64>, t: TxnV) -> Outcome<(FsV, Seq<DeviceOp>)> {
    match template_of(fs) {
        Err(e) => Err(e),
        Ok(template) => {
            let p = played(fs.disk, commit_script(fs, len, t, template));
            match p.fault {
                Some(e) => Err(e),
                None => Ok(
                    (
                        FsV {
                            disk: p.disk,
                            sb: next_super(fs.sb, t),
                            fs_tree: t.fs_tree,
                            ..fs
                        },
                        p.done,
                    ),
                ),
            }
        },
    }
}

/// Whether a step of a script writes the byte at `x`.
pub open spec fn touches(op: Outcome<DeviceOp>, x: int) -> bool {
    match op {
        Ok(DeviceOp::Write { offset, data }) => offset <= x < offset + data.len(),
        _ => false,
    }
}

/// Playing `script` on the device of `v` broke off at step `k` with the fault
/// `e`, and left `w`: all steps before it were done and none from it on, and no
/// byte of the device differs but such as step `k` was to write. Step `k` is the
/// one that is at fault, unless the device is not steady and failed.
pub open spec fn breaks_off(
    v: VolV,
    w: VolV,
    e: Fault,
    script: Seq<Outcome<DeviceOp>>,
    k: int,
) -> bool {
    let p = played(v.fs.disk, script.take(k));
    &&& 0 <= k < script.len()
    &&& p.fault is None
    &&& played(v.fs.disk, script.take(k + 1)).fault == Some(e) || (!v.steady && e is Io)
    &&& w == (VolV { fs: FsV { disk: w.fs.disk, ..v.fs }, history: v.history + p.done, ..v })
    &&& w.fs.disk.len() == v.fs.disk.len()
    &&& forall|x: int|
        0 <= x < v.fs.disk.len() && !touches(script[k], x) ==> #[trigger] w.fs.disk[x] == p.disk[x]
}

/// Playing `script` on the device of `v` may end in `r` and leave `w`.
pub open spec fn transfers(v: VolV, w: VolV, r: Outcome<()>, script: Seq<Outcome<DeviceOp>>) -> bool {
    let p = played(v.fs.disk, script);
    match r {
        Ok(_) => p.fault is None && w == (VolV {
            fs: FsV { disk: p.disk, ..v.fs },
            history: v.history + p.done,
            ..v
        }),
        Err(e) => {
            &&& p.fault == Some(e) || (!v.steady && e is Io)
            &&& exists|k: int| breaks_off(v, w, e, script, k)
        },
    }
}

/// Whether `w` is the volume `v` after a commit of `t` that ended in `r`. A
/// commit that fails leaves the mounted state alone. Where the superblock to
/// build on cannot be had, nothing is done to the device; else the commit broke
/// off at some step of its script.
pub open spec fn commits(v: VolV, w: VolV, r: Outcome<()>, t: TxnV) -> bool {
    match r {
        Ok(_) => committed(v.fs, v.len, t) matches Ok(x) && w == (VolV {
            fs: x.0,
            history: v.history + x.1,
            ..v
        }),
        Err(e) => {
            &&& committed(v.fs, v.len, t) == Err::<(FsV, Seq<DeviceOp>), Fault>(e) || (!v.steady
                && e is Io)
            &&& match template_of(v.fs) {
                Err(_) => w == v,
                Ok(template) => {
                    ||| w == v && !v.steady && e is Io
                    ||| exists|k: int|
                        breaks_off(v, w, e, commit_script(v.fs, v.len, t, template), k)
                },
            }
        },
    }
}

/// Whether `w` is the volume `v` after `script` was played, with result `r`.
pub open spec fn plays(v: VolV, w: VolV, r: Result<()>, script: Seq<Outcome<DeviceOp>>) -> bool {
    transfers(v, w, outcome(r), script)
}

pub proof fn plays_nothing(v: VolV)
    ensures
        plays(v, v, Ok(()), Seq::empty()),
{
    assert(v.history + Seq::<DeviceOp>::empty() =~= v.history);
}

pub proof fn plays_then(
    v: VolV,
    w: VolV,
    x: VolV,
    r: Result<()>,
    a: Seq<Outcome<DeviceOp>>,
    b: Seq<Outcome<DeviceOp>>,
)
    requires
        plays(v, w, Ok(()), a),
        plays(w, x, r, b),
    ensures
        plays(v, x, r, a + b),
{
    played_concat(v.fs.disk, a, b);
    let p = played(v.fs.disk, a);
    let q = played(p.disk, b);
    assert(v.history + p.done + q.done =~= v.history + (p.done + q.done));
    if let Err(e) = outcome(r) {
        let k = choose|k: int| breaks_off(w, x, e, b, k);
        let n = a.len() as int;
        assert((a + b).take(n + k) =~= a + b.take(k));
        assert((a + b).take(n + k + 1) =~= a + b.take(k + 1));
        assert((a + b)[n + k] == b[k]);
        played_concat(v.fs.disk, a, b.take(k));
        played_concat(v.fs.disk, a, b.take(k + 1));
        let z = played(p.disk, b.take(k));
        assert(v.history + p.done + z.done =~= v.history + (p.done + z.done));
        played_len(v.fs.disk, a);
        assert(breaks_off(v, x, e, a + b, n + k));
    }
}

pub proof fn plays_fault(
    v: VolV,
    w: VolV,
    e: LuksError,
    a: Seq<Outcome<DeviceOp>>,
    b: Seq<Outcome<DeviceOp>>,
)
    requires
        plays(v, w, Err(e), a),
    ensures
        plays(v, w, Err(e), a + b),
{
    played_concat(v.fs.disk, a, b);
    let k = choose|k: int| breaks_off(v, w, e@, a, k);
    assert((a + b).take(k) =~= a.take(k));
    assert((a + b).take(k + 1) =~= a.take(k + 1));
    assert((a + b)[k] == a[k]);
    assert(breaks_off(v, w, e@, a + b, k));
}

proof fn played_one(disk: Seq<u8>, x: Outcome<DeviceOp>)
    ensures
        played(disk, seq![x]) == (match x {
            Err(e) => Played { disk, done: Seq::empty(), fault: Some(e) },
            Ok(DeviceOp::Flush) => Played { disk, done: seq![DeviceOp::Flush], fault: None },
            Ok(DeviceOp::Write { offset, data }) => if offset + data.len() <= disk.len() {
                Played {
                    disk: splice(disk, offset, data),
                    done: seq![DeviceOp::Write { offset, data }],
                    fault: None,
                }
            } else {
                Played { disk, done: Seq::empty(), fault: Some(Fault::Io) }
            },
        }),
{
    let s = seq![x];
    assert(s.drop_last() =~= Seq::<Outcome<DeviceOp>>::empty());
    assert(played(disk, s.drop_last()) == (Played { disk, done: Seq::empty(), fault: None }));
    match x {
        Ok(op) => {
            assert(Seq::<DeviceOp>::empty().push(op) =~= seq![op]);
        },
        Err(_) => {},
    }
}

/// A fault behind what was played ends the script.
pub proof fn plays_error(v: VolV, w: VolV, a: Seq<Outcome<DeviceOp>>, e: LuksError)
    requires
        plays(v, w, Ok(()), a),
    ensures
        plays(v, w, Err(e), a + seq![Err(e@)]),
{
    let one = seq![Err::<DeviceOp, Fault>(e@)];
    played_concat(v.fs.disk, a, one);
    played_one(played(v.fs.disk, a).disk, Err(e@));
    played_len(v.fs.disk, a);
    let n = a.len() as int;
    assert((a + one).take(n) =~= a);
    assert((a + one).take(n + 1) =~= a + one);
    assert(breaks_off(v, w, e@, a + one, n));
}

/// A script of one step that failed broke off at that step.
proof fn fails_at_once(v: VolV, w: VolV, e: LuksError, op: DeviceOp)
    requires
        played(v.fs.disk, seq![Ok(op)]).fault == Some(e@) || (!v.steady && e@ is Io),
        w == (VolV { fs: FsV { disk: w.fs.disk, ..v.fs }, ..v }),
        w.fs.disk.len() == v.fs.disk.len(),
        forall|x: int|
            0 <= x < v.fs.disk.len() && !touches(Ok(op), x) ==> #[trigger] w.fs.disk[x]
                == v.fs.disk[x],
    ensures
        plays(v, w, Err(e), seq![Ok(op)]),
{
    let s = seq![Ok::<DeviceOp, Fault>(op)];
    assert(s.take(0) =~= Seq::<Outcome<DeviceOp>>::empty());
    assert(s.take(1) =~= s);
    assert(v.history + Seq::<DeviceOp>::empty() =~= v.history);
    assert(breaks_off(v, w, e@, s, 0));
}

fn put<D: WriteAt>(fs: &mut Btrfs<D>, at: u64, data: &[u8]) -> (r: Result<()>)
    ensures
        plays(
            old(fs).state(),
            final(fs).state(),
            r,
            seq![Ok(DeviceOp::Write { offset: at as int, data: data@ })],
        ),
{
    proof {
        played_one(
            fs.state().fs.disk,
            Ok(DeviceOp::Write { offset: at as int, data: data@ }),
        );
    }
    let ghost v = fs.state();
    let ghost h = fs.history();
    let ghost op = DeviceOp::Write { offset: at as int, data: data@ };
    let r = fs.write_device(at, data);
    assert(h.push(op) =~= h + seq![op]);
    proof {
        if r is Err {
            fails_at_once(v, fs.state(), r->Err_0, op);
        }
    }
    r
}

fn flush<D: WriteAt>(fs: &mut Btrfs<D>) -> (r: Result<()>)
    ensures
        plays(old(fs).state(), final(fs).state(), r, flush_script()),
{
    proof {
        played_one(fs.state().fs.disk, Ok(DeviceOp::Flush));
    }
    let ghost v = fs.state();
    let ghost h = fs.history();
    let r = fs.flush_device();
    assert(h.push(DeviceOp::Flush) =~= h + seq![DeviceOp::Flush]);
    proof {
        if r is Err {
            fails_at_once(v, fs.state(), r->Err_0, DeviceOp::Flush);
        }
    }
    r
}

/// Write `data` to every copy of the logical address `at`.
pub fn write_block<D: WriteAt>(fs: &mut Btrfs<D>, at: u64, data: &[u8]) -> (r: Result<()>)
    ensures
        plays(
            old(fs).state(),
            final(fs).state(),
            r,
            block_script(old(fs)@.chunks, at, data@),
        ),
{
    let ghost v = fs.state();
    let places = match fs.chunk_map().map_all_stripes(at) {
        Ok(p) => p,
        Err(e) => {
            proof {
                plays_nothing(v);
                plays_error(v, v, Seq::empty(), e);
                assert(Seq::<Outcome<DeviceOp>>::empty() + seq![Err(e@)] =~= seq![Err(e@)]);
            }
            return Err(e);
        },
    };
    put_copies(fs, &places, data)
}

/// Write `data` at every place.
pub fn put_copies<D: WriteAt>(fs: &mut Btrfs<D>, places: &Vec<u64>, data: &[u8]) -> (r: Result<()>)
    ensures
        plays(old(fs).state(), final(fs).state(), r, copies(places@, data@)),
{
    let ghost v = fs.state();
    let ghost all = copies(places@, data@);
    let n: usize = places.len();
    let mut i: usize = 0;
    proof {
        plays_nothing(v);
        assert(all.take(0) =~= Seq::<Outcome<DeviceOp>>::empty());
    }
    while i < n
        invariant
            i <= n,
            n == places@.len(),
            v == old(fs).state(),
            all == copies(places@, data@),
            plays(v, fs.state(), Ok(()), all.take(i as int)),
        decreases n - i,
    {
        let ghost w = fs.state();
        let r = put(fs, places[i], data);
        proof {
            let one = seq![
                Ok::<DeviceOp, Fault>(
                    DeviceOp::Write { offset: places@[i as int] as int, data: data@ },
                ),
            ];
            plays_then(v, w, fs.state(), r, all.take(i as int), one);
            assert(all.take(i as int) + one =~= all.take(i + 1));
            if r is Err {
                plays_fault(v, fs.state(), r->Err_0, all.take(i + 1), all.skip(i + 1));
                assert(all.take(i + 1) + all.skip(i + 1) =~= all);
            }
        }
        r?;
        i += 1;
    }
    assert(all.take(n as int) =~= all);
    Ok(())
}

fn write_data<D: WriteAt>(fs: &mut Btrfs<D>, data: &Vec<(u64, Vec<u8>)>) -> (r: Result<()>)
    ensures
        plays(
            old(fs).state(),
            final(fs).state(),
            r,
            data_script(old(fs)@.chunks, pairs_of(data@)),
        ),
{
    let ghost v = fs.state();
    let ghost all = pairs_of(data@);
    let n: usize = data.len();
    let mut i: usize = 0;
    proof {
        plays_nothing(v);
        assert(all.take(0) =~= Seq::<(u64, Seq<u8>)>::empty());
    }
    while i < n
        invariant
            i <= n,
            n == data@.len(),
            v == old(fs).state(),
            all == pairs_of(data@),
            plays(v, fs.state(), Ok(()), data_script(v.fs.chunks, all.take(i as int))),
        decreases n - i,
    {
        let ghost w = fs.state();
        let ghost head = data_script(v.fs.chunks, all.take(i as int));
        let ghost one = block_script(v.fs.chunks, all[i as int].0, all[i as int].1);
        assert(all[i as int] == (data@[i as int].0, data@[i as int].1@));
        let r = write_block(fs, data[i].0, data[i].1.as_slice());
        proof {
            plays_then(v, w, fs.state(), r, head, one);
            assert(all.take(i + 1).drop_last() =~= all.take(i as int));
            assert(data_script(v.fs.chunks, all.take(i + 1)) == head + one);
            if r is Err {
                data_script_split(v.fs.chunks, all, i + 1);
                plays_fault(
                    v,
                    fs.state(),
                    r->Err_0,
                    head + one,
                    data_rest(v.fs.chunks, all, i + 1),
                );
            }
        }
        r?;
        i += 1;
    }
    assert(all.take(n as int) =~= all);
    Ok(())
}

spec fn data_rest(chunks: Seq<ChunkV>, data: Seq<(u64, Seq<u8>)>, n: int) -> Seq<Outcome<DeviceOp>> {
    data_script(chunks, data).skip(data_script(chunks, data.take(n)).len() as int)
}

proof fn data_script_split(chunks: Seq<ChunkV>, data: Seq<(u64, Seq<u8>)>, n: int)
    requires
        0 <= n <= data.len(),
    ensures
        data_script(chunks, data) == data_script(chunks, data.take(n)) + data_rest(chunks, data, n),
    decreases data.len(),
{
    let head = data_script(chunks, data.take(n));
    let whole = data_script(chunks, data);
    if n == data.len() {
        assert(data.take(n) =~= data);
    } else {
        data_script_split(chunks, data.drop_last(), n);
        assert(data.drop_last().take(n) =~= data.take(n));
        let mid = data_script(chunks, data.drop_last());
        assert(mid == head + data_rest(chunks, data.drop_last(), n));
        assert forall|i: int| 0 <= i < head.len() implies whole[i] == head[i] by {
            assert(whole[i] == mid[i]);
        }
    }
    assert(whole =~= head + data_rest(chunks, data, n));
}

spec fn tree_rest(chunks: Seq<ChunkV>, m: Map<u64, Seq<u8>>, at: Seq<u64>, n: int) -> Seq<
    Outcome<DeviceOp>,
> {
    tree_script(chunks, m, at).skip(tree_script(chunks, m, at.take(n)).len() as int)
}

proof fn tree_script_split(chunks: Seq<ChunkV>, m: Map<u64, Seq<u8>>, at: Seq<u64>, n: int)
    requires
        0 <= n <= at.len(),
    ensures
        tree_script(chunks, m, at) == tree_script(chunks, m, at.take(n)) + tree_rest(
            chunks,
            m,
            at,
            n,
        ),
    decreases at.len(),
{
    let head = tree_script(chunks, m, at.take(n));
    let whole = tree_script(chunks, m, at);
    if n == at.len() {
        assert(at.take(n) =~= at);
    } else {
        tree_script_split(chunks, m, at.drop_last(), n);
        assert(at.drop_last().take(n) =~= at.take(n));
        let mid = tree_script(chunks, m, at.drop_last());
        assert(mid == head + tree_rest(chunks, m, at.drop_last(), n));
        assert forall|i: int| 0 <= i < head.len() implies whole[i] == head[i] by {
            assert(whole[i] == mid[i]);
        }
    }
    assert(whole =~= head + tree_rest(chunks, m, at, n));
}

fn write_blocks<D: WriteAt>(fs: &mut Btrfs<D>, blocks: &BlockMap) -> (r: Result<()>)
    ensures
        plays(
            old(fs).state(),
            final(fs).state(),
            r,
            tree_script(old(fs)@.chunks, blocks@, addresses_of(blocks@)),
        ),
{
    let ghost v = fs.state();
    let ks = blocks.addresses();
    let ghost all = ks@;
    let n: usize = ks.len();
    let mut i: usize = 0;
    proof {
        plays_nothing(v);
        assert(all.take(0) =~= Seq::<u64>::empty());
    }
    while i < n
        invariant
            i <= n,
            n == ks@.len(),
            all == ks@,
            all == addresses_of(blocks@),
            lists(all, blocks@.dom()),
            v == old(fs).state(),
            plays(
                v,
                fs.state(),
                Ok(()),
                tree_script(v.fs.chunks, blocks@, all.take(i as int)),
            ),
        decreases n - i,
    {
        let ghost w = fs.state();
        let ghost head = tree_script(v.fs.chunks, blocks@, all.take(i as int));
        let ghost one = block_script(v.fs.chunks, all[i as int], blocks@[all[i as int]]);
        assert(all.to_set().contains(all[i as int]));
        if let Some(b) = blocks.get(ks[i]) {
            let r = write_block(fs, ks[i], b.as_slice());
            proof {
                plays_then(v, w, fs.state(), r, head, one);
                assert(all.take(i + 1).drop_last() =~= all.take(i as int));
                assert(tree_script(v.fs.chunks, blocks@, all.take(i + 1)) == head + one);
                if r is Err {
                    tree_script_split(v.fs.chunks, blocks@, all, i + 1);
                    plays_fault(
                        v,
                        fs.state(),
                        r->Err_0,
                        head + one,
                        tree_rest(v.fs.chunks, blocks@, all, i + 1),
                    );
                }
            }
            r?;
        }
        i += 1;
    }
    assert(all.take(n as int) =~= all);
    Ok(())
}

fn write_super<D: WriteAt>(
    fs: &mut Btrfs<D>,
    sb: &Superblock,
    template: &Vec<u8>,
    at: u64,
    len: Option<u64>,
) -> (r: Result<()>)
    requires
        template@.len() == SUPER_SIZE,
        at <= SUPER_OFFSET_2,
    ensures
        plays(
            old(fs).state(),
            final(fs).state(),
            r,
            copy_script(sb@, template@, at, len),
        ),
{
    if let Some(n) = len {
        if at + SUPER_SIZE as u64 > n {
            proof {
                plays_nothing(fs.state());
            }
            return Ok(());
        }
    }
    let raw = sb.emit_copy(template.as_slice(), at);
    put(fs, at, raw.as_slice())
}

fn read_template<D: ReadAt>(fs: &Btrfs<D>) -> (r: Result<Vec<u8>>)
    ensures
        match r {
            Ok(raw) => template_of(fs@) == Ok::<Seq<u8>, Fault>(raw@) && raw@.len() == SUPER_SIZE,
            Err(e) => template_of(fs@) == Err::<Seq<u8>, Fault>(e@) || (!fs.steady() && e@ is Io),
        },
{
    let raw = fs.read_device(SUPER_OFFSET_0, SUPER_SIZE)?;
    let _ = Superblock::parse(raw.as_slice(), SUPER_OFFSET_0)?;
    Ok(raw)
}

fn play_commit<D: WriteAt>(
    fs: &mut Btrfs<D>,
    t: &Transaction,
    sb: &Superblock,
    template: &Vec<u8>,
    len: Option<u64>,
) -> (r: Result<()>)
    requires
        template@.len() == SUPER_SIZE,
        sb@ == next_super(old(fs)@.sb, t@),
    ensures
        plays(
            old(fs).state(),
            final(fs).state(),
            r,
            commit_script(old(fs)@, len, t@, template@),
        ),
{
    let ghost v = fs.state();
    let ghost chunks = v.fs.chunks;
    let ghost a = data_script(chunks, t@.data);
    let ghost b = tree_script(chunks, t@.blocks, addresses_of(t@.blocks));
    let ghost c = flush_script();
    let ghost d = copy_script(sb@, template@, SUPER_OFFSET_0, len);
    let ghost e = copy_script(sb@, template@, SUPER_OFFSET_1, len);
    let ghost f = copy_script(sb@, template@, SUPER_OFFSET_2, len);
    let ghost whole = commit_script(v.fs, len, t@, template@);
    proof {
        assert(whole =~= a + (b + (c + (d + (e + (f + c))))));
        assert(whole =~= (a + b) + (c + (d + (e + (f + c)))));
        assert(whole =~= (a + b + c) + (d + (e + (f + c))));
        assert(whole =~= (a + b + c + d) + (e + (f + c)));
        assert(whole =~= (a + b + c + d + e) + (f + c));
        assert(whole =~= (a + b + c + d + e + f) + c);
    }
    let r = write_data(fs, &t.pending_data);
    proof {
        if r is Err {
            plays_fault(v, fs.state(), r->Err_0, a, b + (c + (d + (e + (f + c)))));
        }
    }
    r?;
    let ghost w = fs.state();
    let r = write_blocks(fs, &t.pending_blocks);
    proof {
        plays_then(v, w, fs.state(), r, a, b);
        if r is Err {
            plays_fault(v, fs.state(), r->Err_0, a + b, c + (d + (e + (f + c))));
        }
    }
    r?;
    let ghost w = fs.state();
    let r = flush(fs);
    proof {
        plays_then(v, w, fs.state(), r, a + b, c);
        if r is Err {
            plays_fault(v, fs.state(), r->Err_0, a + b + c, d + (e + (f + c)));
        }
    }
    r?;
    let ghost w = fs.state();
    let r = write_super(fs, sb, template, SUPER_OFFSET_0, len);
    proof {
        plays_then(v, w, fs.state(), r, a + b + c, d);
        if r is Err {
            plays_fault(v, fs.state(), r->Err_0, a + b + c + d, e + (f + c));
        }
    }
    r?;
    let ghost w = fs.state();
    let r = write_super(fs, sb, template, SUPER_OFFSET_1, len);
    proof {
        plays_then(v, w, fs.state(), r, a + b + c + d, e);
        if r is Err {
            plays_fault(v, fs.state(), r->Err_0, a + b + c + d + e, f + c);
        }
    }
    r?;
    let ghost w = fs.state();
    let r = write_super(fs, sb, template, SUPER_OFFSET_2, len);
    proof {
        plays_then(v, w, fs.state(), r, a + b + c + d + e, f);
        if r is Err {
            plays_fault(v, fs.state(), r->Err_0, a + b + c + d + e + f, c);
        }
    }
    r?;
    let ghost w = fs.state();
    let r = flush(fs);
    proof {
        plays_then(v, w, fs.state(), r, a + b + c + d + e + f, c);
    }
    r
}

/// Write a transaction to the device, and make it the mounted state.
pub fn commit_transaction<D: WriteAt>(fs: &mut Btrfs<D>, txn: Transaction) -> (r: Result<()>)
    ensures
        commits(old(fs).state(), final(fs).state(), outcome(r), txn@),
{
    let template = read_template(fs)?;
    let len = fs.device_len();
    let mut sb = fs.superblock().clone();
    sb.generation = txn.new_generation;
    sb.root = txn.final_root_bytenr;
    sb.root_level = txn.final_root_level;
    if let Some(c) = txn.final_chunk_root {
        sb.chunk_root = c.0;
        sb.chunk_root_level = c.1;
        sb.chunk_root_generation = txn.new_generation;
    }
    sb.bytes_used = txn.final_bytes_used;
    sb.compat_ro_flags = sb.compat_ro_flags & !BTRFS_FEATURE_COMPAT_RO_FREE_SPACE_TREE_VALID;
    assert(sb@ == next_super(fs@.sb, txn@));
    play_commit(fs, &txn, &sb, &template, len)?;
    fs.update_mount_state(sb, txn.new_fs_tree);
    Ok(())
}

/// A superblock copy is only written once everything else has been flushed:
/// every step of a commit before its first flush writes file data or tree
/// blocks, and every superblock copy comes behind that flush.
pub proof fn superblock_follows_flush(fs: FsV, len: Option<u64>, t: TxnV, template: Seq<u8>)
    ensures
        ({
            let s = commit_script(fs, len, t, template);
            let body = body_script(fs.chunks, t);
            &&& s.take(body.len() as int) == body
            &&& body.last() == Ok::<DeviceOp, Fault>(DeviceOp::Flush)
            &&& s.last() == Ok::<DeviceOp, Fault>(DeviceOp::Flush)
            &&& s.skip(body.len() as int) == super_script(next_super(fs.sb, t), template, len)
                + flush_script()
        }),
{
    let body = body_script(fs.chunks, t);
    let s = commit_script(fs, len, t, template);
    assert(s.take(body.len() as int) =~= body);
    assert(s.skip(body.len() as int) =~= super_script(next_super(fs.sb, t), template, len)
        + flush_script());
}

/// A commit reaches every copy: if it succeeds, each copy of each tree block
/// was among its writes.
pub proof fn every_copy_is_written(fs: FsV, len: Option<u64>, t: TxnV, k: int, j: int)
    requires
        committed(fs, len, t) is Ok,
        0 <= k < addresses_of(t.blocks).len(),
        locate(fs.chunks, addresses_of(t.blocks)[k]) is Ok,
        0 <= j < locate(fs.chunks, addresses_of(t.blocks)[k])->Ok_0.0.len(),
    ensures
        committed(fs, len, t)->Ok_0.1.contains(
            DeviceOp::Write {
                offset: locate(fs.chunks, addresses_of(t.blocks)[k])->Ok_0.0[j] as int,
                data: t.blocks[addresses_of(t.blocks)[k]],
            },
        ),
{
    let template = template_of(fs)->Ok_0;
    let ks = addresses_of(t.blocks);
    let s = commit_script(fs, len, t, template);
    let a = data_script(fs.chunks, t.data);
    let b = tree_script(fs.chunks, t.blocks, ks);
    let places = locate(fs.chunks, ks[k])->Ok_0.0;
    let op = DeviceOp::Write { offset: places[j] as int, data: t.blocks[ks[k]] };
    tree_script_has(fs.chunks, t.blocks, ks, k, j);
    let i = choose|i: int| 0 <= i < b.len() && b[i] == Ok::<DeviceOp, Fault>(op);
    assert(s[a.len() + i] == b[i]);
    done_has(fs.disk, s, a.len() + i, op);
}

pub proof fn tree_script_has(chunks: Seq<ChunkV>, m: Map<u64, Seq<u8>>, ks: Seq<u64>, k: int, j: int)
    requires
        0 <= k < ks.len(),
        locate(chunks, ks[k]) is Ok,
        0 <= j < locate(chunks, ks[k])->Ok_0.0.len(),
    ensures
        exists|i: int|
            0 <= i < tree_script(chunks, m, ks).len() && tree_script(chunks, m, ks)[i] == Ok::<
                DeviceOp,
                Fault,
            >(
                DeviceOp::Write {
                    offset: locate(chunks, ks[k])->Ok_0.0[j] as int,
                    data: m[ks[k]],
                },
            ),
    decreases ks.len(),
{
    let p = tree_script(chunks, m, ks.drop_last());
    let q = block_script(chunks, ks.last(), m[ks.last()]);
    let all = tree_script(chunks, m, ks);
    assert(all == p + q);
    if k == ks.len() - 1 {
        assert(q[j] == Ok::<DeviceOp, Fault>(
            DeviceOp::Write { offset: locate(chunks, ks[k])->Ok_0.0[j] as int, data: m[ks[k]] },
        ));
        assert(all[p.len() + j] == q[j]);
    } else {
        assert(ks.drop_last()[k] == ks[k]);
        tree_script_has(chunks, m, ks.drop_last(), k, j);
        let i = choose|i: int|
            0 <= i < p.len() && p[i] == Ok::<DeviceOp, Fault>(
                DeviceOp::Write {
                    offset: locate(chunks, ks[k])->Ok_0.0[j] as int,
                    data: m[ks[k]],
                },
            );
        assert(all[i] == p[i]);
    }
}

proof fn done_has(disk: Seq<u8>, s: Seq<Outcome<DeviceOp>>, i: int, op: DeviceOp)
    requires
        played(disk, s).fault is None,
        0 <= i < s.len(),
        s[i] == Ok::<DeviceOp, Fault>(op),
    ensures
        played(disk, s).done.contains(op),
    decreases s.len(),
{
    let p = played(disk, s.drop_last());
    if i == s.len() - 1 {
        assert(played(disk, s).done == p.done.push(op));
        assert(p.done.push(op)[p.done.len() as int] == op);
    } else {
        done_has(disk, s.drop_last(), i, op);
        let n = choose|n: int| 0 <= n < p.done.len() && p.done[n] == op;
        assert(played(disk, s).done[n] == op);
    }
}

/// The superblock that a commit leads to carries the transaction's generation,
/// and its mark that vouches for the free-space tree is cleared.
pub proof fn commit_withdraws_mark(sb: SuperV, t: TxnV)
    ensures
        next_super(sb, t).generation == t.generation,
        next_super(sb, t).compat_ro_flags & BTRFS_FEATURE_COMPAT_RO_FREE_SPACE_TREE_VALID == 0,
{
    let x = sb.compat_ro_flags;
    assert((x & !2u64) & 2 == 0) by (bit_vector);
}

} // verus!
