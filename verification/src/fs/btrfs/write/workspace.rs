//! The state that a transaction is built up in.

use vstd::prelude::*;

use crate::bytes::{append_bytes, copy_bytes};
use crate::device::ReadAt;
use crate::error::{Fault, LuksError, Outcome, Result};
use crate::fs::btrfs::blocks::BlockMap;
use crate::fs::btrfs::search::{find_item, find_item_in_tree};
use crate::fs::btrfs::tree::{Item, Key};
use crate::fs::btrfs::volume::{Btrfs, FsV};
use crate::fs::btrfs::write::cow::{
    agrees, cow_of, cow_tree_insert, cow_tree_mutate, draft_of, draws, draws_none, draws_on,
    leaf_with, tree_edit, tree_edit_is_mutation, tree_insert, Cow, CowResult, CowV,
};
use crate::fs::btrfs::write::edit::{apply_edit, EditV, LeafEdit};
use crate::fs::btrfs::write::interval_set::{meets, with_interval, IntervalSet};
use crate::fs::btrfs::write::node::Leaf;
use crate::fs::btrfs::write::payload::pairs_of;
use crate::fs::btrfs::write::space::{free_block, BgV, FreeSpaceMap};
use crate::seqs::{first_idx, first_idx_is};

verus! {

/// The blocks, allocations and bookkeeping of an unfinished transaction.
#[derive(Debug)]
pub struct Workspace {
    /// Blocks built so far.
    pub pending: BlockMap,
    pub allocator: FreeSpaceMap,
    /// New tree blocks that the extent tree does not list yet: address, level
    /// and owning tree.
    pub add: Vec<(u64, u8, u64)>,
    /// Unreferenced tree blocks that the extent tree still lists: address and
    /// level.
    pub remove: Vec<(u64, u8)>,
    /// All that was handed out, where that is watched.
    pub ledger: Option<IntervalSet>,
}

/// The mathematical view of a [`Workspace`].
#[verifier::ext_equal]
pub struct StateV {
    pub pending: Map<u64, Seq<u8>>,
    pub space: Seq<BgV>,
    pub add: Seq<(u64, u8, u64)>,
    pub remove: Seq<(u64, u8)>,
    pub ledger: Option<Seq<(u64, u64)>>,
}

impl View for Workspace {
    type V = StateV;

    open spec fn view(&self) -> StateV {
        StateV {
            pending: self.pending@,
            space: self.allocator@,
            add: self.add@,
            remove: self.remove@,
            ledger: match self.ledger {
                Some(l) => Some(l@),
                None => None,
            },
        }
    }
}

/// The state before anything was changed.
pub open spec fn fresh_state(space: Seq<BgV>) -> StateV {
    StateV {
        pending: Map::empty(),
        space,
        add: Seq::empty(),
        remove: Seq::empty(),
        ledger: None,
    }
}

/// The ledger once `[start, start + length)` was handed out; `None` if some of
/// it had been handed out before.
pub open spec fn claim(ledger: Seq<(u64, u64)>, start: u64, length: u64) -> Option<Seq<(u64, u64)>> {
    if length == 0 {
        Some(ledger)
    } else if start + length > u64::MAX || meets(ledger, start, (start + length) as u64) {
        None
    } else {
        Some(with_interval(ledger, start, (start + length) as u64))
    }
}

/// The ledger once a set of blocks was handed out.
pub open spec fn claim_all(ledger: Seq<(u64, u64)>, blocks: Seq<(u64, u8)>, node_size: u32) -> Option<
    Seq<(u64, u64)>,
>
    decreases blocks.len(),
{
    if blocks.len() == 0 {
        Some(ledger)
    } else {
        match claim_all(ledger, blocks.drop_last(), node_size) {
            None => None,
            Some(l) => claim(l, blocks.last().0, node_size as u64),
        }
    }
}

/// `after` is the ledger `before` with some blocks entered in it.
pub open spec fn claims_some(
    before: Seq<(u64, u64)>,
    after: Seq<(u64, u64)>,
    node_size: u32,
) -> bool {
    exists|blocks: Seq<(u64, u8)>| #[trigger] claim_all(before, blocks, node_size) == Some(after)
}

/// What a change to the tree `owner` that failed leaves of `s`: the blocks that
/// were taken for it stay taken, and entered in the ledger; nothing else changes.
pub open spec fn given_up(s: StateV, t: StateV, node_size: u32, owner: u64) -> bool {
    &&& t == (StateV { space: t.space, ledger: t.ledger, ..s })
    &&& draws(s.space, t.space, node_size, owner)
    &&& match (s.ledger, t.ledger) {
        (None, None) => true,
        (Some(l), Some(m)) => claims_some(l, m, node_size),
        _ => false,
    }
}

/// What changes to the tree `owner` that failed leave of `s`: the changes before
/// the one that failed are made.
pub open spec fn broken_off(
    fs: FsV,
    generation: u64,
    owner: u64,
    s: StateV,
    root: (u64, u8),
    ops: Seq<OpV>,
    t: StateV,
) -> bool {
    exists|n: int|
        0 <= n < ops.len() && (steps(fs, generation, owner, s, root, #[trigger] ops.take(n)) matches Ok(
            x,
        ) && given_up(x.0, t, fs.sb.node_size, owner))
}

proof fn claims_none(l: Seq<(u64, u64)>, node_size: u32)
    ensures
        claims_some(l, l, node_size),
{
    assert(claim_all(l, Seq::empty(), node_size) == Some(l));
}

/// The message for an address that was handed out twice.
pub open spec fn double_allocation() -> Fault {
    Fault::CorruptFs("double allocation detected in batch allocation ledger"@)
}

/// Whether an entry of the list of blocks to record is for block `b`.
pub open spec fn at_block(b: u64) -> spec_fn((u64, u8, u64)) -> bool {
    |x: (u64, u8, u64)| x.0 == b
}

/// The state once block `b` is no longer referenced: a block of this very
/// transaction vanishes, any other is to be taken off the extent tree.
pub open spec fn drop_block(s: StateV, b: u64, level: u8, node_size: u32) -> StateV {
    let p = first_idx(s.add, at_block(b));
    let kept = if p < s.add.len() {
        StateV { add: s.add.remove(p), pending: s.pending.remove(b), ..s }
    } else {
        StateV { remove: s.remove.push((b, level)), ..s }
    };
    StateV { space: free_block(s.space, b, node_size), ..kept }
}

/// The state once none of `freed` is referenced any more.
pub open spec fn drop_blocks(s: StateV, freed: Seq<(u64, u8)>, node_size: u32) -> StateV
    decreases freed.len(),
{
    if freed.len() == 0 {
        s
    } else {
        drop_block(
            drop_blocks(s, freed.drop_last(), node_size),
            freed.last().0,
            freed.last().1,
            node_size,
        )
    }
}

/// `pending` with `emitted` written over it.
pub open spec fn overlaid(pending: Map<u64, Seq<u8>>, emitted: Seq<(u64, Seq<u8>)>) -> Map<
    u64,
    Seq<u8>,
>
    decreases emitted.len(),
{
    if emitted.len() == 0 {
        pending
    } else {
        overlaid(pending, emitted.drop_last()).insert(emitted.last().0, emitted.last().1)
    }
}

/// New blocks as entries of the list of blocks to record.
pub open spec fn owned(blocks: Seq<(u64, u8)>, owner: u64) -> Seq<(u64, u8, u64)> {
    blocks.map_values(|x: (u64, u8)| (x.0, x.1, owner))
}

/// The state once the change `r` of the tree `owner` was booked.
pub open spec fn recorded(s: StateV, r: CowV, node_size: u32, owner: u64) -> StateV {
    let a = StateV { add: s.add + owned(r.allocated, owner), space: r.space, ..s };
    let d = drop_blocks(a, r.freed, node_size);
    StateV { pending: overlaid(d.pending, r.emitted), ..d }
}

/// What booking the change `r` comes to: the state, and the tree's root.
pub open spec fn absorbed(s: StateV, r: CowV, node_size: u32, owner: u64) -> Outcome<
    (StateV, (u64, u8)),
> {
    match s.ledger {
        None => Ok((recorded(s, r, node_size, owner), (r.root, r.level))),
        Some(l) => match claim_all(l, r.allocated, node_size) {
            None => Err(double_allocation()),
            Some(m) => Ok(
                (
                    recorded(StateV { ledger: Some(m), ..s }, r, node_size, owner),
                    (r.root, r.level),
                ),
            ),
        },
    }
}

/// A change of one tree.
#[derive(Debug)]
pub enum TreeOp {
    /// Insert an item.
    Insert { key: Key, data: Vec<u8> },
    /// Edit the item with a key.
    Edit { key: Key, edit: LeafEdit },
    /// Append to the item with a key, or insert it.
    Append { key: Key, data: Vec<u8> },
}

/// The mathematical view of a [`TreeOp`].
pub enum OpV {
    Insert { key: Key, data: Seq<u8> },
    Edit { key: Key, edit: EditV },
    Append { key: Key, data: Seq<u8> },
}

impl View for TreeOp {
    type V = OpV;

    open spec fn view(&self) -> OpV {
        match *self {
            TreeOp::Insert { key, data } => OpV::Insert { key, data: data@ },
            TreeOp::Edit { key, edit } => OpV::Edit { key, edit: edit@ },
            TreeOp::Append { key, data } => OpV::Append { key, data: data@ },
        }
    }
}

/// The views of a sequence of changes.
pub open spec fn ops_of(s: Seq<TreeOp>) -> Seq<OpV> {
    s.map_values(|x: TreeOp| x@)
}

/// Insert an item into the tree `owner` with root `root`.
pub open spec fn insert_step(
    fs: FsV,
    generation: u64,
    owner: u64,
    s: StateV,
    root: (u64, u8),
    it: Item,
) -> Outcome<(StateV, (u64, u8))> {
    match tree_insert(Cow { fs, pending: s.pending, owner, generation }, s.space, root.0, root.1, it) {
        Err(e) => Err(e),
        Ok(r) => absorbed(s, r, fs.sb.node_size, owner),
    }
}

/// Edit an item of the tree `owner` with root `root`.
pub open spec fn edit_step(
    fs: FsV,
    generation: u64,
    owner: u64,
    s: StateV,
    root: (u64, u8),
    key: Key,
    edit: EditV,
) -> Outcome<(StateV, (u64, u8))> {
    match tree_edit(
        Cow { fs, pending: s.pending, owner, generation },
        s.space,
        root.0,
        root.1,
        key,
        edit,
    ) {
        Err(e) => Err(e),
        Ok(r) => absorbed(s, r, fs.sb.node_size, owner),
    }
}

/// One change of the tree `owner` with root `root`.
pub open spec fn step(
    fs: FsV,
    generation: u64,
    owner: u64,
    s: StateV,
    root: (u64, u8),
    op: OpV,
) -> Outcome<(StateV, (u64, u8))> {
    match op {
        OpV::Insert { key, data } => insert_step(
            fs,
            generation,
            owner,
            s,
            root,
            Item { key, data },
        ),
        OpV::Edit { key, edit } => edit_step(fs, generation, owner, s, root, key, edit),
        OpV::Append { key, data } => match find_item(fs, s.pending, root.0, key) {
            Err(e) => Err(e),
            Ok(None) => insert_step(fs, generation, owner, s, root, Item { key, data }),
            Ok(Some(d)) => edit_step(
                fs,
                generation,
                owner,
                s,
                root,
                key,
                EditV::Put { data: d + data, missing: "dir item not found"@ },
            ),
        },
    }
}

/// Changes of the tree `owner`, one after the other.
pub open spec fn steps(
    fs: FsV,
    generation: u64,
    owner: u64,
    s: StateV,
    root: (u64, u8),
    ops: Seq<OpV>,
) -> Outcome<(StateV, (u64, u8))>
    decreases ops.len(),
{
    if ops.len() == 0 {
        Ok((s, root))
    } else {
        match steps(fs, generation, owner, s, root, ops.drop_last()) {
            Err(e) => Err(e),
            Ok((t, r)) => step(fs, generation, owner, t, r, ops.last()),
        }
    }
}

/// A fault in a leading part of `ops` is the fault of all of `ops`.
pub proof fn steps_err(
    fs: FsV,
    generation: u64,
    owner: u64,
    s: StateV,
    root: (u64, u8),
    ops: Seq<OpV>,
    n: int,
)
    requires
        0 <= n <= ops.len(),
        steps(fs, generation, owner, s, root, ops.take(n)) is Err,
    ensures
        steps(fs, generation, owner, s, root, ops) == steps(
            fs,
            generation,
            owner,
            s,
            root,
            ops.take(n),
        ),
    decreases ops.len() - n,
{
    if n == ops.len() {
        assert(ops.take(n) =~= ops);
    } else {
        assert(ops.take(n + 1).drop_last() =~= ops.take(n));
        steps_err(fs, generation, owner, s, root, ops, n + 1);
    }
}

/// Changes in two lots are changes in one.
pub proof fn steps_split(
    fs: FsV,
    generation: u64,
    owner: u64,
    s: StateV,
    root: (u64, u8),
    a: Seq<OpV>,
    b: Seq<OpV>,
)
    ensures
        steps(fs, generation, owner, s, root, a + b) == match steps(
            fs,
            generation,
            owner,
            s,
            root,
            a,
        ) {
            Err(e) => Err(e),
            Ok((t, r)) => steps(fs, generation, owner, t, r, b),
        },
    decreases b.len(),
{
    if b.len() == 0 {
        assert(a + b =~= a);
    } else {
        steps_split(fs, generation, owner, s, root, a, b.drop_last());
        assert((a + b).drop_last() =~= a + b.drop_last());
        assert((a + b).last() == b.last());
    }
}

/// Book a copy-on-write result: note the new blocks, drop the freed ones, and
/// keep the written ones.
pub fn record_cow_result(res: CowResult, w: &mut Workspace, node_size: u32, owner: u64) -> (r: Result<
    (),
>)
    ensures
        r is Ok,
        final(w)@ == recorded(old(w)@, cow_of(res, old(w).allocator@), node_size, owner),
{
    let ghost s0 = w@;
    let ghost c = cow_of(res, w.allocator@);
    let mut res = res;
    let n: usize = res.allocated.len();
    let mut i: usize = 0;
    while i < n
        invariant
            i <= n,
            n == res.allocated@.len(),
            w@.add =~= s0.add + owned(res.allocated@.take(i as int), owner),
            w@ == (StateV { add: w@.add, ..s0 }),
        decreases n - i,
    {
        w.add.push((res.allocated[i].0, res.allocated[i].1, owner));
        i += 1;
    }
    assert(res.allocated@.take(n as int) =~= res.allocated@);
    let ghost s1 = w@;
    assert(s1 == (StateV { add: s0.add + owned(c.allocated, owner), space: c.space, ..s0 }));
    let m: usize = res.freed.len();
    let mut k: usize = 0;
    assert(res.freed@.take(0) =~= Seq::<(u64, u8)>::empty());
    while k < m
        invariant
            k <= m,
            m == res.freed@.len(),
            w@ == drop_blocks(s1, res.freed@.take(k as int), node_size),
        decreases m - k,
    {
        let (b, level) = res.freed[k];
        let ghost before = w@;
        let p: usize = position_of(&w.add, b);
        if p < w.add.len() {
            w.add.remove(p);
            w.pending.remove(b);
        } else {
            w.remove.push((b, level));
        }
        let _ = w.allocator.free_metadata(b, node_size);
        assert(w@ =~= drop_block(before, b, level, node_size));
        k += 1;
        assert(res.freed@.take(k as int).drop_last() =~= res.freed@.take(k - 1));
    }
    assert(res.freed@.take(m as int) =~= res.freed@);
    let ghost s2 = w@;
    let ghost all = res.emitted_blocks@;
    let e: usize = res.emitted_blocks.len();
    let mut j: usize = 0;
    assert(pairs_of(all).take(0) =~= Seq::<(u64, Seq<u8>)>::empty());
    while j < e
        invariant
            j <= e,
            e == res.emitted_blocks@.len(),
            all == res.emitted_blocks@,
            w@.pending == overlaid(s2.pending, pairs_of(all).take(j as int)),
            w@ == (StateV { pending: w@.pending, ..s2 }),
        decreases e - j,
    {
        let b: u64 = res.emitted_blocks[j].0;
        let data = copy_bytes(&res.emitted_blocks[j].1);
        w.pending.insert(b, data);
        j += 1;
        assert(pairs_of(all).take(j as int).drop_last() =~= pairs_of(all).take(j - 1));
        assert(pairs_of(all).take(j as int).last() == (b, data@));
    }
    assert(pairs_of(all).take(e as int) =~= pairs_of(all));
    Ok(())
}

/// The first position of block `b`, or the length.
fn position_of(v: &Vec<(u64, u8, u64)>, b: u64) -> (p: usize)
    ensures
        p == first_idx(v@, at_block(b)),
        p <= v@.len(),
{
    let ghost f = at_block(b);
    let n: usize = v.len();
    let mut i: usize = 0;
    while i < n
        invariant
            i <= n,
            n == v@.len(),
            f == at_block(b),
            forall|j: int| 0 <= j < i ==> !f(#[trigger] v@[j]),
        decreases n - i,
    {
        if v[i].0 == b {
            proof {
                first_idx_is(v@, f, i as int);
            }
            return i;
        }
        i += 1;
    }
    proof {
        first_idx_is(v@, f, n as int);
    }
    n
}

impl Workspace {
    /// A workspace without changes.
    pub fn new(allocator: FreeSpaceMap) -> (r: Self)
        ensures
            r@ == fresh_state(allocator@),
    {
        Workspace {
            pending: BlockMap::new(),
            allocator,
            add: Vec::new(),
            remove: Vec::new(),
            ledger: None,
        }
    }

    /// Enter blocks in the ledger, if there is one.
    fn claim_blocks(&mut self, blocks: &Vec<(u64, u8)>, node_size: u32) -> (r: Result<()>)
        ensures
            match old(self)@.ledger {
                None => r is Ok && final(self)@ == old(self)@,
                Some(l) => match claim_all(l, blocks@, node_size) {
                    None => {
                        &&& r matches Err(e) && e@ == double_allocation()
                        &&& final(self)@.ledger matches Some(m) && claims_some(l, m, node_size)
                        &&& final(self)@ == (StateV {
                            ledger: final(self)@.ledger,
                            ..old(self)@
                        })
                    },
                    Some(m) => r is Ok && final(self)@ == (StateV {
                        ledger: Some(m),
                        ..old(self)@
                    }),
                },
            },
    {
        match &mut self.ledger {
            None => Ok(()),
            Some(l) => enter_blocks(l, blocks, node_size),
        }
    }

    fn absorb(&mut self, res: CowResult, node_size: u32, owner: u64) -> (r: Result<(u64, u8)>)
        ensures
            match r {
                Ok(x) => absorbed(old(self)@, cow_of(res, old(self).allocator@), node_size, owner)
                    == Ok::<(StateV, (u64, u8)), Fault>((final(self)@, x)),
                Err(e) => absorbed(
                    old(self)@,
                    cow_of(res, old(self).allocator@),
                    node_size,
                    owner,
                ) == Err::<(StateV, (u64, u8)), Fault>(e@) && given_up(
                    old(self)@,
                    final(self)@,
                    node_size,
                    owner,
                ),
            },
    {
        proof {
            draws_none(self@.space, node_size, owner);
        }
        let root = (res.new_root_bytenr, res.new_root_level);
        self.claim_blocks(&res.allocated, node_size)?;
        let _ = record_cow_result(res, self, node_size, owner);
        Ok(root)
    }

    /// Insert an item into the tree `owner` with root `root`; returns the new
    /// root.
    pub fn insert<D: ReadAt>(
        &mut self,
        fs: &Btrfs<D>,
        generation: u64,
        owner: u64,
        root: (u64, u8),
        key: Key,
        data: Vec<u8>,
    ) -> (r: Result<(u64, u8)>)
        ensures
            agrees(
                fs.steady(),
                r,
                insert_step(
                    fs@,
                    generation,
                    owner,
                    old(self)@,
                    root,
                    Item { key, data: data@ },
                ),
                |x: (u64, u8)| (final(self)@, x),
            ),
            r is Err ==> given_up(old(self)@, final(self)@, fs@.sb.node_size, owner),
    {
        let ghost s = self@;
        proof {
            if s.ledger is Some {
                claims_none(s.ledger->Some_0, fs@.sb.node_size);
            }
        }
        let res = cow_tree_insert(
            fs,
            &self.pending,
            root.0,
            root.1,
            owner,
            key,
            data,
            generation,
            &mut self.allocator,
        )?;
        assert(self@ == (StateV { space: self.allocator@, ..s }));
        let node_size: u32 = fs.superblock().node_size;
        let ghost c = cow_of(res, self.allocator@);
        proof {
            absorbed_space(s, self@, c, node_size, owner);
        }
        let ghost mid = self@;
        let r = self.absorb(res, node_size, owner);
        proof {
            if r is Err {
                draws_on(s.space, mid.space, self@.space, node_size, owner);
            }
        }
        r
    }

    /// Edit the item with `key` in the tree `owner` with root `root`; returns
    /// the new root.
    pub fn edit<D: ReadAt>(
        &mut self,
        fs: &Btrfs<D>,
        generation: u64,
        owner: u64,
        root: (u64, u8),
        key: Key,
        edit: &LeafEdit,
    ) -> (r: Result<(u64, u8)>)
        ensures
            agrees(
                fs.steady(),
                r,
                edit_step(fs@, generation, owner, old(self)@, root, key, edit@),
                |x: (u64, u8)| (final(self)@, x),
            ),
            r is Err ==> given_up(old(self)@, final(self)@, fs@.sb.node_size, owner),
    {
        let ghost s = self@;
        proof {
            if s.ledger is Some {
                claims_none(s.ledger->Some_0, fs@.sb.node_size);
            }
        }
        let change = |leaf: Leaf| -> (o: Result<Leaf>)
            ensures
                draft_of(o) == leaf_with(leaf@, key, edit@),
            {
                let mut leaf = leaf;
                match apply_edit(&mut leaf, &key, edit) {
                    Ok(()) => Ok(leaf),
                    Err(e) => Err(e),
                }
            };
        let ghost c = Cow { fs: fs@, pending: s.pending, owner, generation };
        proof {
            tree_edit_is_mutation(c, s.space, root.0, root.1, key, edit@);
        }
        let res = cow_tree_mutate(
            fs,
            &self.pending,
            root.0,
            root.1,
            owner,
            &key,
            generation,
            &mut self.allocator,
            change,
        )?;
        assert(self@ == (StateV { space: self.allocator@, ..s }));
        let node_size: u32 = fs.superblock().node_size;
        let ghost c = cow_of(res, self.allocator@);
        proof {
            absorbed_space(s, self@, c, node_size, owner);
        }
        let ghost mid = self@;
        let r = self.absorb(res, node_size, owner);
        proof {
            if r is Err {
                draws_on(s.space, mid.space, self@.space, node_size, owner);
            }
        }
        r
    }

    /// Apply one change to the tree `owner` with root `root`; returns the new
    /// root.
    pub fn apply<D: ReadAt>(
        &mut self,
        fs: &Btrfs<D>,
        generation: u64,
        owner: u64,
        root: (u64, u8),
        op: &TreeOp,
    ) -> (r: Result<(u64, u8)>)
        ensures
            agrees(
                fs.steady(),
                r,
                step(fs@, generation, owner, old(self)@, root, op@),
                |x: (u64, u8)| (final(self)@, x),
            ),
            r is Err ==> given_up(old(self)@, final(self)@, fs@.sb.node_size, owner),
    {
        proof {
            draws_none(self@.space, fs@.sb.node_size, owner);
            if self@.ledger is Some {
                claims_none(self@.ledger->Some_0, fs@.sb.node_size);
            }
        }
        match op {
            TreeOp::Insert { key, data } => self.insert(
                fs,
                generation,
                owner,
                root,
                *key,
                copy_bytes(data),
            ),
            TreeOp::Edit { key, edit } => self.edit(fs, generation, owner, root, *key, edit),
            TreeOp::Append { key, data } => {
                match find_item_in_tree(fs, &self.pending, root.0, key)? {
                    None => self.insert(fs, generation, owner, root, *key, copy_bytes(data)),
                    Some(d) => {
                        let mut merged = d;
                        append_bytes(&mut merged, data.as_slice());
                        let put = LeafEdit::Put { data: merged, missing: "dir item not found" };
                        self.edit(fs, generation, owner, root, *key, &put)
                    },
                }
            },
        }
    }

    /// Apply changes to the tree `owner` with root `root`, in order; returns the
    /// new root.
    pub fn apply_all<D: ReadAt>(
        &mut self,
        fs: &Btrfs<D>,
        generation: u64,
        owner: u64,
        root: (u64, u8),
        ops: &Vec<TreeOp>,
    ) -> (r: Result<(u64, u8)>)
        ensures
            agrees(
                fs.steady(),
                r,
                steps(fs@, generation, owner, old(self)@, root, ops_of(ops@)),
                |x: (u64, u8)| (final(self)@, x),
            ),
            r is Err ==> broken_off(
                fs@,
                generation,
                owner,
                old(self)@,
                root,
                ops_of(ops@),
                final(self)@,
            ),
    {
        let ghost all = ops_of(ops@);
        let ghost s0 = self@;
        let n: usize = ops.len();
        let mut at: (u64, u8) = root;
        let mut i: usize = 0;
        assert(all.take(0) =~= Seq::<OpV>::empty());
        while i < n
            invariant
                i <= n,
                n == ops@.len(),
                all == ops_of(ops@),
                s0 == old(self)@,
                steps(fs@, generation, owner, s0, root, all.take(i as int)) == Ok::<
                    (StateV, (u64, u8)),
                    Fault,
                >((self@, at)),
            decreases n - i,
        {
            assert(all.take(i + 1).drop_last() =~= all.take(i as int));
            assert(all.take(i + 1).last() == ops@[i as int]@);
            let ghost u = self@;
            match self.apply(fs, generation, owner, at, &ops[i]) {
                Ok(x) => {
                    at = x;
                },
                Err(e) => {
                    proof {
                        assert(given_up(u, self@, fs@.sb.node_size, owner));
                        if steps(fs@, generation, owner, s0, root, all.take(i + 1)) is Err {
                            steps_err(fs@, generation, owner, s0, root, all, i + 1);
                        }
                    }
                    return Err(e);
                },
            }
            i += 1;
        }
        assert(all.take(n as int) =~= all);
        Ok(at)
    }
}

proof fn absorbed_space(s: StateV, t: StateV, c: CowV, node_size: u32, owner: u64)
    requires
        t == (StateV { space: c.space, ..s }),
    ensures
        absorbed(t, c, node_size, owner) == absorbed(s, c, node_size, owner),
{
}

/// Enter blocks in a ledger.
fn enter_blocks(l: &mut IntervalSet, blocks: &Vec<(u64, u8)>, node_size: u32) -> (r: Result<()>)
    ensures
        match claim_all(old(l)@, blocks@, node_size) {
            None => r matches Err(e) && e@ == double_allocation() && claims_some(
                old(l)@,
                final(l)@,
                node_size,
            ),
            Some(m) => r is Ok && final(l)@ == m,
        },
{
    let ghost l0 = l@;
    let n: usize = blocks.len();
    let mut i: usize = 0;
    assert(blocks@.take(0) =~= Seq::<(u64, u8)>::empty());
    while i < n
        invariant
            i <= n,
            n == blocks@.len(),
            l0 == old(l)@,
            claim_all(l0, blocks@.take(i as int), node_size) == Some(l@),
        decreases n - i,
    {
        assert(blocks@.take(i + 1).drop_last() =~= blocks@.take(i as int));
        if !l.insert(blocks[i].0, node_size as u64) {
            proof {
                claim_all_none(l0, blocks@, node_size, i + 1);
            }
            return Err(
                LuksError::CorruptFs("double allocation detected in batch allocation ledger"),
            );
        }
        i += 1;
    }
    assert(blocks@.take(n as int) =~= blocks@);
    Ok(())
}

proof fn claim_all_none(l: Seq<(u64, u64)>, blocks: Seq<(u64, u8)>, node_size: u32, n: int)
    requires
        0 <= n <= blocks.len(),
        claim_all(l, blocks.take(n), node_size) is None,
    ensures
        claim_all(l, blocks, node_size) is None,
    decreases blocks.len() - n,
{
    if n == blocks.len() {
        assert(blocks.take(n) =~= blocks);
    } else {
        assert(blocks.take(n + 1).drop_last() =~= blocks.take(n));
        claim_all_none(l, blocks, node_size, n + 1);
    }
}

} // verus!
