//! What deleting a file takes along: its data extents, their checksums, and
//! its entries in the directory.

use vstd::prelude::*;

use crate::device::ReadAt;
use crate::error::{Fault, LuksError, Outcome, Result};
use crate::fs::btrfs::extent::{parse_extent, FileExtent};
use crate::fs::btrfs::files::{disk_item, gives, typed_items};
use crate::fs::btrfs::inode::{any_named_for, dir_entries, find_name_for, parse_dir_entries};
use crate::fs::btrfs::roots::optional_root;
use crate::fs::btrfs::tree::{
    items_of, Item, Key, LeafItem, CSUM_TREE_OBJECTID, DIR_INDEX_KEY, EXTENT_DATA_KEY,
    INODE_REF_KEY,
};
use crate::fs::btrfs::volume::{Btrfs, FsV};
use crate::fs::btrfs::write::converge::looked_up;
use crate::fs::btrfs::write::cow::agrees;
use crate::fs::btrfs::write::csum_delete::{
    csums_half_trimmed, csums_trimmed, delete_extent_csums,
};
use crate::fs::btrfs::write::edit::{EditV, LeafEdit};
use crate::fs::btrfs::write::extent_tree::{allocs_of, AllocV, AllocatedExtent};
use crate::fs::btrfs::write::space::{free_extent, BgV, FreeSpaceMap};
use crate::fs::btrfs::write::txn::push_op;
use crate::fs::btrfs::write::workspace::{ops_of, OpV, StateV, TreeOp, Workspace};
use crate::bytes::{get_u64, le64};
use crate::seqs::{first_idx, first_idx_is};
use crate::sort::{sort_ranked, stable_sort, Ranked};

verus! {

/// A data extent: its address and its length.
#[derive(Debug, Clone, Copy, PartialEq, Eq, Structural)]
pub struct Span {
    pub start: u64,
    pub len: u64,
}

impl Ranked for Span {
    open spec fn rank(&self) -> int {
        self.start * 0x1_0000_0000_0000_0000 + self.len
    }

    fn rank_le(&self, other: &Self) -> (r: bool) {
        self.start < other.start || (self.start == other.start && self.len <= other.len)
    }
}

/// `s` without elements that equal the one before them.
pub open spec fn dedup<T>(s: Seq<T>) -> Seq<T>
    decreases s.len(),
{
    if s.len() <= 1 {
        s
    } else if s.last() == s[s.len() - 2] {
        dedup(s.drop_last())
    } else {
        dedup(s.drop_last()).push(s.last())
    }
}

/// The data extents that file items refer to, in the order of the items.
pub open spec fn item_spans(items: Seq<Item>) -> Outcome<Seq<Span>>
    decreases items.len(),
{
    if items.len() == 0 {
        Ok(Seq::empty())
    } else {
        match item_spans(items.drop_last()) {
            Err(e) => Err(e),
            Ok(s) => {
                let it = items.last();
                if it.key.item_type != EXTENT_DATA_KEY {
                    Ok(s)
                } else {
                    match parse_extent(it.key.offset, it.data) {
                        Err(e) => Err(e),
                        Ok(x) => if x.on_disk() {
                            Ok(s.push(Span { start: x.disk_bytenr, len: x.disk_num_bytes }))
                        } else {
                            Ok(s)
                        },
                    }
                }
            },
        }
    }
}

proof fn item_spans_err(items: Seq<Item>, n: int)
    requires
        0 <= n <= items.len(),
        item_spans(items.take(n)) is Err,
    ensures
        item_spans(items) == item_spans(items.take(n)),
    decreases items.len() - n,
{
    if n == items.len() {
        assert(items.take(n) =~= items);
    } else {
        assert(items.take(n + 1).drop_last() =~= items.take(n));
        item_spans_err(items, n + 1);
    }
}

/// The data extents that file items refer to, sorted, each once.
pub open spec fn spans_of(items: Seq<Item>) -> Outcome<Seq<Span>> {
    match item_spans(items) {
        Err(e) => Err(e),
        Ok(s) => Ok(dedup(stable_sort(s))),
    }
}

fn dedup_spans(v: &Vec<Span>) -> (r: Vec<Span>)
    ensures
        r@ == dedup(v@),
{
    let n: usize = v.len();
    let mut out: Vec<Span> = Vec::new();
    let mut i: usize = 0;
    assert(v@.take(0) =~= Seq::<Span>::empty());
    while i < n
        invariant
            i <= n,
            n == v@.len(),
            out@ == dedup(v@.take(i as int)),
        decreases n - i,
    {
        proof {
            let t = v@.take(i + 1);
            assert(t.drop_last() =~= v@.take(i as int));
            if i > 0 {
                assert(t[t.len() - 2] == v@[i - 1]);
            } else {
                assert(t =~= Seq::<Span>::empty().push(v@[0]));
            }
        }
        if i == 0 || v[i] != v[i - 1] {
            out.push(v[i]);
        }
        i += 1;
    }
    assert(v@.take(n as int) =~= v@);
    out
}

/// The data extents that file items refer to, sorted, each once.
pub fn collect_spans(items: &Vec<LeafItem>) -> (r: Result<Vec<Span>>)
    ensures
        match r {
            Ok(v) => spans_of(items_of(items@)) == Ok::<Seq<Span>, Fault>(v@),
            Err(e) => spans_of(items_of(items@)) == Err::<Seq<Span>, Fault>(e@),
        },
{
    let ghost all = items_of(items@);
    let n: usize = items.len();
    let mut v: Vec<Span> = Vec::new();
    let mut i: usize = 0;
    assert(all.take(0) =~= Seq::<Item>::empty());
    while i < n
        invariant
            i <= n,
            n == items@.len(),
            all == items_of(items@),
            item_spans(all.take(i as int)) == Ok::<Seq<Span>, Fault>(v@),
        decreases n - i,
    {
        proof {
            assert(all.take(i + 1).drop_last() =~= all.take(i as int));
            assert(all.take(i + 1).last() == items@[i as int]@);
            if item_spans(all.take(i + 1)) is Err {
                item_spans_err(all, i + 1);
            }
        }
        let it = &items[i];
        if it.key.item_type == EXTENT_DATA_KEY {
            let x = FileExtent::parse(it.key.offset, it.data.as_slice())?;
            if x.has_disk_bytes() {
                v.push(Span { start: x.disk_bytenr, len: x.disk_num_bytes });
            }
        }
        i += 1;
    }
    assert(all.take(n as int) =~= all);
    sort_ranked(&mut v);
    Ok(dedup_spans(&v))
}

/// Extents that begin at `start`.
pub open spec fn begins_at(start: u64) -> spec_fn(AllocV) -> bool {
    |e: AllocV| e.bytenr == start
}

/// Whether the extent at `start` is referred to more than once.
pub open spec fn shared_at(extents: Seq<AllocV>, start: u64) -> bool {
    let i = first_idx(extents, begins_at(start));
    i < extents.len() && extents[i].refs > 1
}

/// Whether one of `spans` is referred to more than once.
pub open spec fn any_shared(extents: Seq<AllocV>, spans: Seq<Span>) -> bool {
    exists|k: int| 0 <= k < spans.len() && shared_at(extents, (#[trigger] spans[k]).start)
}

fn is_shared(extents: &Vec<AllocatedExtent>, start: u64) -> (r: bool)
    ensures
        r == shared_at(allocs_of(extents@), start),
{
    let ghost all = allocs_of(extents@);
    let ghost f = begins_at(start);
    let n: usize = extents.len();
    let mut i: usize = 0;
    while i < n
        invariant
            i <= n,
            n == extents@.len(),
            all == allocs_of(extents@),
            f == begins_at(start),
            forall|j: int| 0 <= j < i ==> !f(#[trigger] all[j]),
        decreases n - i,
    {
        assert(all[i as int] == extents@[i as int]@);
        if extents[i].bytenr == start {
            proof {
                first_idx_is(all, f, i as int);
            }
            return extents[i].refs > 1;
        }
        i += 1;
    }
    proof {
        first_idx_is(all, f, n as int);
    }
    false
}

/// Whether one of `spans` is referred to more than once.
pub fn has_shared(extents: &Vec<AllocatedExtent>, spans: &Vec<Span>) -> (r: bool)
    ensures
        r == any_shared(allocs_of(extents@), spans@),
{
    let n: usize = spans.len();
    let mut k: usize = 0;
    while k < n
        invariant
            k <= n,
            n == spans@.len(),
            forall|j: int|
                0 <= j < k ==> !shared_at(allocs_of(extents@), (#[trigger] spans@[j]).start),
        decreases n - k,
    {
        if is_shared(extents, spans[k].start) {
            assert(shared_at(allocs_of(extents@), spans@[k as int].start));
            return true;
        }
        k += 1;
    }
    false
}

/// The allocator once `spans` were freed.
pub open spec fn spans_freed(space: Seq<BgV>, spans: Seq<Span>) -> Outcome<Seq<BgV>>
    decreases spans.len(),
{
    if spans.len() == 0 {
        Ok(space)
    } else {
        match spans_freed(space, spans.drop_last()) {
            Err(e) => Err(e),
            Ok(m) => free_extent(m, spans.last().start, spans.last().len),
        }
    }
}

proof fn spans_freed_err(space: Seq<BgV>, spans: Seq<Span>, n: int)
    requires
        0 <= n <= spans.len(),
        spans_freed(space, spans.take(n)) is Err,
    ensures
        spans_freed(space, spans) == spans_freed(space, spans.take(n)),
    decreases spans.len() - n,
{
    if n == spans.len() {
        assert(spans.take(n) =~= spans);
    } else {
        assert(spans.take(n + 1).drop_last() =~= spans.take(n));
        spans_freed_err(space, spans, n + 1);
    }
}

fn free_spans(allocator: &mut FreeSpaceMap, spans: &Vec<Span>) -> (r: Result<()>)
    ensures
        match r {
            Ok(()) => spans_freed(old(allocator)@, spans@) == Ok::<Seq<BgV>, Fault>(
                final(allocator)@,
            ),
            Err(e) => spans_freed(old(allocator)@, spans@) == Err::<Seq<BgV>, Fault>(e@)
                && spans_half_freed(old(allocator)@, spans@, final(allocator)@),
        },
{
    let ghost m = allocator@;
    let n: usize = spans.len();
    let mut i: usize = 0;
    assert(spans@.take(0) =~= Seq::<Span>::empty());
    while i < n
        invariant
            i <= n,
            n == spans@.len(),
            m == old(allocator)@,
            spans_freed(m, spans@.take(i as int)) == Ok::<Seq<BgV>, Fault>(allocator@),
        decreases n - i,
    {
        proof {
            assert(spans@.take(i + 1).drop_last() =~= spans@.take(i as int));
            if spans_freed(m, spans@.take(i + 1)) is Err {
                spans_freed_err(m, spans@, i + 1);
            }
        }
        allocator.free_data(spans[i].start, spans[i].len)?;
        i += 1;
    }
    assert(spans@.take(n as int) =~= spans@);
    Ok(())
}

/// The keys of items.
pub open spec fn keys_of(items: Seq<Item>) -> Seq<Key> {
    items.map_values(|it: Item| it.key)
}

fn append_keys(v: &mut Vec<Key>, items: &Vec<LeafItem>)
    ensures
        final(v)@ == old(v)@ + keys_of(items_of(items@)),
{
    let ghost all = keys_of(items_of(items@));
    let ghost before = v@;
    let n: usize = items.len();
    let mut i: usize = 0;
    assert(v@ =~= before + all.take(0));
    while i < n
        invariant
            i <= n,
            n == items@.len(),
            all == keys_of(items_of(items@)),
            v@ == before + all.take(i as int),
        decreases n - i,
    {
        assert(all[i as int] == items@[i as int]@.key);
        v.push(items[i].key);
        i += 1;
        assert(v@ =~= before + all.take(i as int));
    }
    assert(all.take(n as int) =~= all);
}

/// Delete the items with these keys.
pub open spec fn deletions(keys: Seq<Key>) -> Seq<OpV> {
    keys.map_values(|k: Key| OpV::Edit { key: k, edit: EditV::Delete })
}

/// Append the deletion of the items with these keys.
pub fn push_deletions(v: &mut Vec<TreeOp>, keys: &Vec<Key>)
    ensures
        ops_of(final(v)@) == ops_of(old(v)@) + deletions(keys@),
{
    let ghost before = ops_of(v@);
    let n: usize = keys.len();
    let mut i: usize = 0;
    assert(ops_of(v@) =~= before + deletions(keys@.take(0)));
    while i < n
        invariant
            i <= n,
            n == keys@.len(),
            ops_of(v@) == before + deletions(keys@.take(i as int)),
        decreases n - i,
    {
        push_op(v, TreeOp::Edit { key: keys[i], edit: LeafEdit::Delete });
        i += 1;
        assert(ops_of(v@) =~= before + deletions(keys@.take(i as int)));
    }
    assert(keys@.take(n as int) =~= keys@);
}

/// The keys of leaf items.
pub fn leaf_keys(items: &Vec<LeafItem>) -> (r: Vec<Key>)
    ensures
        r@ == keys_of(items_of(items@)),
{
    let mut v: Vec<Key> = Vec::new();
    append_keys(&mut v, items);
    assert(v@ =~= keys_of(items_of(items@)));
    v
}

/// The state once the checksums of `spans` are off the checksum tree; with it
/// the tree's new root, if it changed. An item that holds other checksums too
/// keeps those.
pub open spec fn csums_dropped(
    fs: FsV,
    generation: u64,
    s: StateV,
    spans: Seq<Span>,
    seen: bool,
) -> Outcome<(StateV, Option<(u64, u8)>)> {
    if spans.len() == 0 {
        Ok((s, None))
    } else {
        match optional_root(fs, CSUM_TREE_OBJECTID, seen) {
            None => Ok((s, None)),
            Some(root) => csums_trimmed(
                fs,
                generation,
                s,
                (root.bytenr, root.level),
                span_pairs(spans),
            ),
        }
    }
}

/// The state once `spans` were freed and their checksums deleted.
pub open spec fn data_dropped(
    fs: FsV,
    generation: u64,
    s: StateV,
    spans: Seq<Span>,
    seen: bool,
) -> Outcome<(StateV, Option<(u64, u8)>)> {
    match spans_freed(s.space, spans) {
        Err(e) => Err(e),
        Ok(space) => csums_dropped(fs, generation, StateV { space, ..s }, spans, seen),
    }
}

/// What freeing `spans` leaves of `m` where it fails: the spans before the one
/// that failed are freed.
pub open spec fn spans_half_freed(m: Seq<BgV>, spans: Seq<Span>, space: Seq<BgV>) -> bool {
    exists|n: int|
        0 <= n < spans.len() && spans_freed(m, #[trigger] spans.take(n)) == Ok::<Seq<BgV>, Fault>(
            space,
        )
}

/// What dropping `spans` leaves of `s` where it fails.
pub open spec fn data_half_dropped(
    fs: FsV,
    generation: u64,
    s: StateV,
    spans: Seq<Span>,
    t: StateV,
) -> bool {
    ||| t == (StateV { space: t.space, ..s }) && spans_half_freed(s.space, spans, t.space)
    ||| spans_freed(s.space, spans) matches Ok(space) && optional_root(
        fs,
        CSUM_TREE_OBJECTID,
        true,
    ) matches Some(root) && csums_half_trimmed(
        fs,
        generation,
        StateV { space, ..s },
        (root.bytenr, root.level),
        span_pairs(spans),
        t,
    )
}

/// Free `spans`, and delete their checksums.
pub fn drop_data<D: ReadAt>(fs: &Btrfs<D>, generation: u64, w: &mut Workspace, spans: &Vec<Span>) -> (r:
    Result<Option<(u64, u8)>>)
    ensures
        exists|seen: bool| #[trigger]
            looked_up(fs.steady(), seen) && agrees(
                fs.steady(),
                r,
                data_dropped(fs@, generation, old(w)@, spans@, seen),
                |x: Option<(u64, u8)>| (final(w)@, x),
            ),
        r is Err ==> data_half_dropped(fs@, generation, old(w)@, spans@, final(w)@),
{
    assert(looked_up(fs.steady(), true));
    assert(!fs.steady() ==> looked_up(fs.steady(), false));
    let ghost s = w@;
    free_spans(&mut w.allocator, spans)?;
    assert(w@ == (StateV { space: w.allocator@, ..s }));
    if spans.len() == 0 {
        return Ok(None);
    }
    match fs.find_root(CSUM_TREE_OBJECTID) {
        None => Ok(None),
        Some(root) => {
            let pairs = pair_spans(spans);
            delete_extent_csums(
                fs,
                w,
                (root.bytenr, root.level),
                pairs.as_slice(),
                generation,
            )
        },
    }
}

/// The extents of `spans`, as pairs.
pub open spec fn span_pairs(spans: Seq<Span>) -> Seq<(u64, u64)> {
    spans.map_values(|x: Span| (x.start, x.len))
}

/// The extents of `spans`, as pairs.
pub fn pair_spans(spans: &Vec<Span>) -> (r: Vec<(u64, u64)>)
    ensures
        r@ == span_pairs(spans@),
{
    let n: usize = spans.len();
    let mut v: Vec<(u64, u64)> = Vec::new();
    let mut i: usize = 0;
    while i < n
        invariant
            i <= n,
            n == spans@.len(),
            v@ =~= span_pairs(spans@.take(i as int)),
        decreases n - i,
    {
        v.push((spans[i].start, spans[i].len));
        i += 1;
    }
    assert(spans@.take(n as int) =~= spans@);
    v
}

/// The index that inode `ino` has in directory `dir` by its reference back; 0
/// if there is none.
pub open spec fn ref_index(fs: FsV, ino: u64, dir: u64) -> Outcome<u64> {
    match disk_item(
        fs,
        fs.fs_tree.bytenr,
        Key { objectid: ino, item_type: INODE_REF_KEY, offset: dir },
    ) {
        Err(e) => Err(e),
        Ok(None) => Ok(0),
        Ok(Some(d)) => Ok(
            if d.len() >= 8 {
                le64(d, 0)
            } else {
                0
            },
        ),
    }
}

/// The index that inode `ino` has in directory `dir` by its reference back.
pub fn find_ref_index<D: ReadAt>(fs: &Btrfs<D>, ino: u64, dir: u64) -> (r: Result<u64>)
    ensures
        gives(fs.steady(), r, ref_index(fs@, ino, dir)),
{
    let key = Key::new(ino, INODE_REF_KEY, dir);
    match fs.find_item(fs.fs_tree().bytenr, &key)? {
        None => Ok(0),
        Some(d) => Ok(
            if d.len() >= 8 {
                get_u64(d.as_slice(), 0)
            } else {
                0
            },
        ),
    }
}

/// Index items that name inode `ino` as `name`; undecodable items do not.
pub open spec fn lists_entry(name: Seq<u8>, ino: u64) -> spec_fn(Item) -> bool {
    |it: Item|
        match dir_entries(it.data) {
            Ok(es) => any_named_for(es, name, ino),
            Err(_) => false,
        }
}

/// The index under which `items` list inode `ino` as `name`; 0 if they do not.
pub open spec fn listed_index(items: Seq<Item>, name: Seq<u8>, ino: u64) -> u64 {
    let i = first_idx(items, lists_entry(name, ino));
    if i < items.len() {
        items[i].key.offset
    } else {
        0
    }
}

/// The index of inode `ino` in directory `dir`, where it is called `name`.
pub open spec fn index_of(fs: FsV, ino: u64, dir: u64, name: Seq<u8>, missing: Seq<char>) -> Outcome<
    u64,
> {
    match ref_index(fs, ino, dir) {
        Err(e) => Err(e),
        Ok(i) => if i != 0 {
            Ok(i)
        } else {
            match typed_items(fs, fs.fs_tree.bytenr, dir, DIR_INDEX_KEY) {
                Err(e) => Err(e),
                Ok(items) => if listed_index(items, name, ino) == 0 {
                    Err(Fault::CorruptFs(missing))
                } else {
                    Ok(listed_index(items, name, ino))
                },
            }
        },
    }
}

fn search_index(items: &Vec<LeafItem>, name: &[u8], ino: u64) -> (r: u64)
    ensures
        r == listed_index(items_of(items@), name@, ino),
{
    let ghost all = items_of(items@);
    let ghost f = lists_entry(name@, ino);
    let n: usize = items.len();
    let mut i: usize = 0;
    while i < n
        invariant
            i <= n,
            n == items@.len(),
            all == items_of(items@),
            f == lists_entry(name@, ino),
            forall|j: int| 0 <= j < i ==> !f(#[trigger] all[j]),
        decreases n - i,
    {
        assert(all[i as int] == items@[i as int]@);
        if let Ok(es) = parse_dir_entries(items[i].data.as_slice()) {
            if find_name_for(&es, name, ino) {
                proof {
                    first_idx_is(all, f, i as int);
                }
                return items[i].key.offset;
            }
        }
        i += 1;
    }
    proof {
        first_idx_is(all, f, n as int);
    }
    0
}

/// The index of inode `ino` in directory `dir`, where it is called `name`.
pub fn find_index<D: ReadAt>(
    fs: &Btrfs<D>,
    ino: u64,
    dir: u64,
    name: &[u8],
    missing: &'static str,
) -> (r: Result<u64>)
    ensures
        gives(fs.steady(), r, index_of(fs@, ino, dir, name@, missing@)),
{
    let i: u64 = find_ref_index(fs, ino, dir)?;
    if i != 0 {
        return Ok(i);
    }
    let items = fs.items_of_type(fs.fs_tree().bytenr, dir, DIR_INDEX_KEY)?;
    let found: u64 = search_index(&items, name, ino);
    if found == 0 {
        return Err(LuksError::CorruptFs(missing));
    }
    Ok(found)
}

} // verus!
