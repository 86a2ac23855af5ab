//! Searching trees.

use vstd::prelude::*;

use crate::bytes::copy_bytes;
use crate::device::ReadAt;
use crate::error::{tracks, Fault, LuksError, Outcome, Result};
use crate::fs::btrfs::blocks::BlockMap;
use crate::fs::btrfs::tree::{
    child_index, child_index_range, items_of, Item, Key, KeyPtr, LeafItem, Node,
};
use crate::fs::btrfs::volume::{node_at, read_node, Btrfs, FsV};
use crate::seqs::{first_idx, first_idx_is};

verus! {

/// How many levels are descended at most.
pub const MAX_DEPTH: u8 = 16;

/// The payload of the first item with `key`.
pub open spec fn payload_of(items: Seq<Item>, key: Key) -> Option<Seq<u8>> {
    let i = first_idx(items, |x: Item| x.key == key);
    if i < items.len() {
        Some(items[i].data)
    } else {
        None
    }
}

/// The payload of the item with `key` below the node at `bytenr`.
#[verifier::opaque]
pub open spec fn find_below(
    fs: FsV,
    pending: Map<u64, Seq<u8>>,
    bytenr: u64,
    key: Key,
    depth: u8,
) -> Outcome<Option<Seq<u8>>>
    decreases depth,
{
    if depth == 0 {
        Ok(None)
    } else {
        match node_at(fs, pending, bytenr) {
            Err(e) => Err(e),
            Ok(node) => if node.level == 0 {
                Ok(payload_of(node.items, key))
            } else if node.ptrs.len() == 0 {
                Ok(None)
            } else {
                let i = child_index(node.ptrs, key);
                if node.ptrs[i].key.ord() > key.ord() {
                    Ok(None)
                } else {
                    find_below(fs, pending, node.ptrs[i].blockptr, key, (depth - 1) as u8)
                }
            },
        }
    }
}

/// The payload of the item with `key` in the tree at `root`.
pub open spec fn find_item(fs: FsV, pending: Map<u64, Seq<u8>>, root: u64, key: Key) -> Outcome<
    Option<Seq<u8>>,
> {
    find_below(fs, pending, root, key, MAX_DEPTH)
}

/// The items with keys from `lo` to `hi`.
pub open spec fn within(items: Seq<Item>, lo: Key, hi: Key) -> Seq<Item>
    decreases items.len(),
{
    if items.len() == 0 {
        Seq::empty()
    } else if lo.ord() <= items.last().key.ord() <= hi.ord() {
        within(items.drop_last(), lo, hi).push(items.last())
    } else {
        within(items.drop_last(), lo, hi)
    }
}

/// Whether child `i` can hold keys from `lo` to `hi`.
pub open spec fn child_meets(ptrs: Seq<KeyPtr>, i: int, lo: Key, hi: Key) -> bool {
    &&& ptrs[i].key.ord() <= hi.ord()
    &&& i + 1 < ptrs.len() ==> ptrs[i + 1].key.ord() > lo.ord()
}

/// The items with keys from `lo` to `hi` below the node at `bytenr`, in order.
#[verifier::opaque]
pub open spec fn range_below(
    fs: FsV,
    pending: Map<u64, Seq<u8>>,
    bytenr: u64,
    lo: Key,
    hi: Key,
    depth: u8,
) -> Outcome<Seq<Item>>
    decreases depth, 0nat, 0nat,
{
    if depth == 0 {
        Err(Fault::CorruptFs("btrfs tree is too deep"@))
    } else {
        match node_at(fs, pending, bytenr) {
            Err(e) => Err(e),
            Ok(node) => if node.level == 0 {
                Ok(within(node.items, lo, hi))
            } else {
                range_children(
                    fs,
                    pending,
                    node.ptrs,
                    node.ptrs.len(),
                    lo,
                    hi,
                    (depth - 1) as u8,
                )
            },
        }
    }
}

/// The items with keys from `lo` to `hi` below the first `n` children.
#[verifier::opaque]
pub open spec fn range_children(
    fs: FsV,
    pending: Map<u64, Seq<u8>>,
    ptrs: Seq<KeyPtr>,
    n: nat,
    lo: Key,
    hi: Key,
    depth: u8,
) -> Outcome<Seq<Item>>
    decreases depth, 1nat, n,
{
    if n == 0 {
        Ok(Seq::empty())
    } else {
        match range_children(fs, pending, ptrs, (n - 1) as nat, lo, hi, depth) {
            Err(e) => Err(e),
            Ok(front) => if child_meets(ptrs, n - 1, lo, hi) {
                match range_below(fs, pending, ptrs[n - 1].blockptr, lo, hi, depth) {
                    Err(e) => Err(e),
                    Ok(back) => Ok(front + back),
                }
            } else {
                Ok(front)
            },
        }
    }
}

/// The items with keys from `lo` to `hi` in the tree at `root`, in order.
pub open spec fn range_items(
    fs: FsV,
    pending: Map<u64, Seq<u8>>,
    root: u64,
    lo: Key,
    hi: Key,
) -> Outcome<Seq<Item>> {
    range_below(fs, pending, root, lo, hi, MAX_DEPTH)
}

/// The last of `items`' keys.
pub open spec fn last_key(items: Seq<Item>) -> Option<Key> {
    if items.len() == 0 {
        None
    } else {
        Some(items.last().key)
    }
}

/// The last key from `lo` to `hi` below the node at `bytenr`.
#[verifier::opaque]
pub open spec fn last_below(fs: FsV, bytenr: u64, lo: Key, hi: Key, depth: u8) -> Outcome<
    Option<Key>,
>
    decreases depth, 0nat, 0nat,
{
    if depth == 0 {
        Err(Fault::CorruptFs("btrfs tree is too deep"@))
    } else {
        match node_at(fs, Map::empty(), bytenr) {
            Err(e) => Err(e),
            Ok(node) => if node.level == 0 {
                Ok(last_key(within(node.items, lo, hi)))
            } else {
                last_child(fs, node.ptrs, node.ptrs.len(), lo, hi, (depth - 1) as u8)
            },
        }
    }
}

/// The last key from `lo` to `hi` below the first `n` children, found from the
/// back.
#[verifier::opaque]
pub open spec fn last_child(fs: FsV, ptrs: Seq<KeyPtr>, n: nat, lo: Key, hi: Key, depth: u8) -> Outcome<
    Option<Key>,
>
    decreases depth, 1nat, n,
{
    if n == 0 {
        Ok(None)
    } else if child_meets(ptrs, n - 1, lo, hi) {
        match last_below(fs, ptrs[n - 1].blockptr, lo, hi, depth) {
            Err(e) => Err(e),
            Ok(Some(k)) => Ok(Some(k)),
            Ok(None) => last_child(fs, ptrs, (n - 1) as nat, lo, hi, depth),
        }
    } else {
        last_child(fs, ptrs, (n - 1) as nat, lo, hi, depth)
    }
}

/// The first of `items`' keys.
pub open spec fn first_key(items: Seq<Item>) -> Option<Key> {
    if items.len() == 0 {
        None
    } else {
        Some(items[0].key)
    }
}

/// The first key from `lo` to `hi` below the node at `bytenr`. Nothing behind it
/// is read.
#[verifier::opaque]
pub open spec fn first_below(fs: FsV, bytenr: u64, lo: Key, hi: Key, depth: u8) -> Outcome<
    Option<Key>,
>
    decreases depth, 0nat, 0nat,
{
    if depth == 0 {
        Err(Fault::CorruptFs("btrfs tree is too deep"@))
    } else {
        match node_at(fs, Map::empty(), bytenr) {
            Err(e) => Err(e),
            Ok(node) => if node.level == 0 {
                Ok(first_key(within(node.items, lo, hi)))
            } else {
                first_child(fs, node.ptrs, node.ptrs.len(), lo, hi, (depth - 1) as u8)
            },
        }
    }
}

/// The first key from `lo` to `hi` below the last `n` children, found from the
/// front.
#[verifier::opaque]
pub open spec fn first_child(fs: FsV, ptrs: Seq<KeyPtr>, n: nat, lo: Key, hi: Key, depth: u8) -> Outcome<
    Option<Key>,
>
    decreases depth, 1nat, n,
{
    let i = ptrs.len() - n;
    if n == 0 {
        Ok(None)
    } else if child_meets(ptrs, i, lo, hi) {
        match first_below(fs, ptrs[i].blockptr, lo, hi, depth) {
            Err(e) => Err(e),
            Ok(Some(k)) => Ok(Some(k)),
            Ok(None) => first_child(fs, ptrs, (n - 1) as nat, lo, hi, depth),
        }
    } else {
        first_child(fs, ptrs, (n - 1) as nat, lo, hi, depth)
    }
}

/// `r` is what the model says of a payload, or the device failed.
pub open spec fn finds(steady: bool, r: Result<Option<Vec<u8>>>, want: Outcome<Option<Seq<u8>>>) -> bool {
    match r {
        Ok(Some(v)) => want == Ok::<Option<Seq<u8>>, Fault>(Some(v@)),
        Ok(None) => want == Ok::<Option<Seq<u8>>, Fault>(None),
        Err(e) => want == Err::<Option<Seq<u8>>, Fault>(e@) || (!steady && e@ is Io),
    }
}

/// `r` is what the model says of items, or the device failed.
pub open spec fn yields(steady: bool, r: Result<Vec<LeafItem>>, want: Outcome<Seq<Item>>) -> bool {
    match r {
        Ok(v) => want == Ok::<Seq<Item>, Fault>(items_of(v@)),
        Err(e) => want == Err::<Seq<Item>, Fault>(e@) || (!steady && e@ is Io),
    }
}

fn payload_in(node: &Node, key: &Key) -> (r: Option<Vec<u8>>)
    ensures
        match r {
            Some(v) => payload_of(node@.items, *key) == Some(v@),
            None => payload_of(node@.items, *key) is None,
        },
{
    let ghost f = |x: Item| x.key == *key;
    let ghost all = node@.items;
    let n: usize = node.items.len();
    let mut i: usize = 0;
    while i < n && !(node.items[i].key == *key)
        invariant
            i <= n,
            n == node.items@.len(),
            all == items_of(node.items@),
            f == (|x: Item| x.key == *key),
            forall|j: int| 0 <= j < i ==> !f(#[trigger] all[j]),
        decreases n - i,
    {
        assert(all[i as int] == node.items@[i as int]@);
        i += 1;
    }
    proof {
        if i < n {
            assert(all[i as int] == node.items@[i as int]@);
        }
        first_idx_is(all, f, i as int);
    }
    if i < n {
        Some(copy_bytes(node.items[i].data.as_slice()))
    } else {
        None
    }
}

/// Find the item with `key` in the tree at `root_bytenr`, consulting the
/// pending blocks first.
pub fn find_item_in_tree<D: ReadAt>(fs: &Btrfs<D>, pending: &BlockMap, root_bytenr: u64, key: &Key) -> (r:
    Result<Option<Vec<u8>>>)
    ensures
        finds(fs.steady(), r, find_item(fs@, pending@, root_bytenr, *key)),
{
    let mut bytenr: u64 = root_bytenr;
    let mut depth: u8 = MAX_DEPTH;
    while depth > 0
        invariant
            find_item(fs@, pending@, root_bytenr, *key) == find_below(
                fs@,
                pending@,
                bytenr,
                *key,
                depth,
            ),
        decreases depth,
    {
        reveal(find_below);
        let node = read_node(fs, pending, bytenr)?;
        if node.is_leaf() {
            return Ok(payload_in(&node, key));
        }
        if node.ptrs.len() == 0 {
            return Ok(None);
        }
        proof {
            child_index_range(node@.ptrs, *key);
        }
        let i: usize = node.child_for(key)?;
        if key.before(&node.ptrs[i].key) {
            return Ok(None);
        }
        bytenr = node.ptrs[i].blockptr;
        depth = depth - 1;
    }
    reveal(find_below);
    Ok(None)
}

/// The items of a leaf with keys from `lo` to `hi`, behind `out`.
fn append_within(node: &Node, lo: &Key, hi: &Key, out: &mut Vec<LeafItem>)
    ensures
        items_of(final(out)@) == items_of(old(out)@) + within(node@.items, *lo, *hi),
{
    let ghost all = node@.items;
    let ghost base = items_of(out@);
    let n: usize = node.items.len();
    let mut i: usize = 0;
    assert(all.take(0) =~= Seq::<Item>::empty());
    assert(items_of(out@) =~= base + within(all.take(0), *lo, *hi));
    while i < n
        invariant
            i <= n,
            n == node.items@.len(),
            all == items_of(node.items@),
            items_of(out@) == base + within(all.take(i as int), *lo, *hi),
        decreases n - i,
    {
        proof {
            assert(all.take(i + 1).drop_last() =~= all.take(i as int));
            assert(all.take(i + 1).last() == node.items@[i as int]@);
        }
        if !node.items[i].key.before(lo) && !hi.before(&node.items[i].key) {
            let ghost before = out@;
            out.push(node.items[i].clone());
            assert(items_of(out@) =~= items_of(before).push(node.items@[i as int]@));
        }
        i += 1;
        assert(items_of(out@) =~= base + within(all.take(i as int), *lo, *hi));
    }
    assert(all.take(n as int) =~= all);
}

fn child_may_hold(ptrs: &Vec<KeyPtr>, i: usize, lo: &Key, hi: &Key) -> (r: bool)
    requires
        i < ptrs@.len(),
    ensures
        r == child_meets(ptrs@, i as int, *lo, *hi),
{
    !hi.before(&ptrs[i].key) && (ptrs.len() - i <= 1 || lo.before(&ptrs[i + 1].key))
}

fn collect_below<D: ReadAt>(
    fs: &Btrfs<D>,
    pending: &BlockMap,
    bytenr: u64,
    lo: &Key,
    hi: &Key,
    depth: u8,
    out: &mut Vec<LeafItem>,
) -> (r: Result<()>)
    ensures
        match r {
            Ok(()) => match range_below(fs@, pending@, bytenr, *lo, *hi, depth) {
                Ok(s) => items_of(final(out)@) == items_of(old(out)@) + s,
                Err(_) => false,
            },
            Err(e) => range_below(fs@, pending@, bytenr, *lo, *hi, depth) == Err::<
                Seq<Item>,
                Fault,
            >(e@) || (!fs.steady() && e@ is Io),
        },
    decreases depth,
{
    reveal(range_below);
    reveal(range_children);
    if depth == 0 {
        return Err(LuksError::CorruptFs("btrfs tree is too deep"));
    }
    let node = read_node(fs, pending, bytenr)?;
    if node.is_leaf() {
        append_within(&node, lo, hi, out);
        return Ok(());
    }
    let n: usize = node.ptrs.len();
    let mut i: usize = 0;
    let ghost base = items_of(out@);
    proof {
        reveal(range_children);
        reveal(range_below);
        assert(base + Seq::<Item>::empty() =~= base);
    }
    while i < n
        invariant
            i <= n,
            n == node.ptrs@.len(),
            depth > 0,
            match range_children(
                fs@,
                pending@,
                node.ptrs@,
                i as nat,
                *lo,
                *hi,
                (depth - 1) as u8,
            ) {
                Ok(s) => items_of(out@) == base + s,
                Err(_) => false,
            },
            range_below(fs@, pending@, bytenr, *lo, *hi, depth) == range_children(
                fs@,
                pending@,
                node.ptrs@,
                n as nat,
                *lo,
                *hi,
                (depth - 1) as u8,
            ),
        decreases n - i,
    {
        let ghost front = range_children(
            fs@,
            pending@,
            node.ptrs@,
            i as nat,
            *lo,
            *hi,
            (depth - 1) as u8,
        )->Ok_0;
        proof {
            reveal(range_children);
            reveal(range_below);
        }
        if child_may_hold(&node.ptrs, i, lo, hi) {
            let r = collect_below(fs, pending, node.ptrs[i].blockptr, lo, hi, depth - 1, out);
            match r {
                Ok(()) => {
                    proof {
                        let back = range_below(
                            fs@,
                            pending@,
                            node.ptrs@[i as int].blockptr,
                            *lo,
                            *hi,
                            (depth - 1) as u8,
                        )->Ok_0;
                        assert((base + front) + back =~= base + (front + back));
                    }
                },
                Err(e) => {
                    proof {
                        if range_below(
                            fs@,
                            pending@,
                            node.ptrs@[i as int].blockptr,
                            *lo,
                            *hi,
                            (depth - 1) as u8,
                        ) == Err::<Seq<Item>, Fault>(e@) {
                            range_children_err(
                                fs@,
                                pending@,
                                node.ptrs@,
                                (i + 1) as nat,
                                n as nat,
                                *lo,
                                *hi,
                                (depth - 1) as u8,
                                e@,
                            );
                        }
                    }
                    return Err(e);
                },
            }
        }
        i += 1;
    }
    Ok(())
}

proof fn range_children_err(
    fs: FsV,
    pending: Map<u64, Seq<u8>>,
    ptrs: Seq<KeyPtr>,
    i: nat,
    n: nat,
    lo: Key,
    hi: Key,
    depth: u8,
    e: Fault,
)
    requires
        i <= n,
        range_children(fs, pending, ptrs, i, lo, hi, depth) == Err::<Seq<Item>, Fault>(e),
    ensures
        range_children(fs, pending, ptrs, n, lo, hi, depth) == Err::<Seq<Item>, Fault>(e),
    decreases n - i,
{
    if i < n {
        reveal(range_children);
        reveal(range_below);
        range_children_err(fs, pending, ptrs, i + 1, n, lo, hi, depth, e);
    }
}

/// All items with keys from `lo` to `hi` in the tree at `root`, in order.
///
/// Only nodes that can hold such keys are read.
pub fn collect_range<D: ReadAt>(fs: &Btrfs<D>, pending: &BlockMap, root: u64, lo: &Key, hi: &Key) -> (r:
    Result<Vec<LeafItem>>)
    ensures
        yields(fs.steady(), r, range_items(fs@, pending@, root, *lo, *hi)),
{
    let mut out: Vec<LeafItem> = Vec::new();
    assert(items_of(out@) =~= Seq::<Item>::empty());
    collect_below(fs, pending, root, lo, hi, MAX_DEPTH, &mut out)?;
    proof {
        let s = range_items(fs@, pending@, root, *lo, *hi)->Ok_0;
        assert(Seq::<Item>::empty() + s =~= s);
    }
    Ok(out)
}

fn last_key_in(node: &Node, lo: &Key, hi: &Key) -> (r: Option<Key>)
    ensures
        r == last_key(within(node@.items, *lo, *hi)),
{
    let ghost all = node@.items;
    let n: usize = node.items.len();
    let mut best: Option<Key> = None;
    let mut i: usize = 0;
    assert(all.take(0) =~= Seq::<Item>::empty());
    while i < n
        invariant
            i <= n,
            n == node.items@.len(),
            all == items_of(node.items@),
            best == last_key(within(all.take(i as int), *lo, *hi)),
        decreases n - i,
    {
        proof {
            assert(all.take(i + 1).drop_last() =~= all.take(i as int));
            assert(all.take(i + 1).last() == node.items@[i as int]@);
        }
        if !node.items[i].key.before(lo) && !hi.before(&node.items[i].key) {
            best = Some(node.items[i].key);
        }
        i += 1;
    }
    assert(all.take(n as int) =~= all);
    best
}

/// The last key from `lo` to `hi` below the node at `bytenr`.
pub fn find_last<D: ReadAt>(fs: &Btrfs<D>, bytenr: u64, lo: &Key, hi: &Key, depth: u8) -> (r: Result<
    Option<Key>,
>)
    ensures
        match r {
            Ok(k) => last_below(fs@, bytenr, *lo, *hi, depth) == Ok::<Option<Key>, Fault>(k),
            Err(e) => last_below(fs@, bytenr, *lo, *hi, depth) == Err::<Option<Key>, Fault>(e@)
                || (!fs.steady() && e@ is Io),
        },
    decreases depth,
{
    reveal(last_below);
    reveal(last_child);
    if depth == 0 {
        return Err(LuksError::CorruptFs("btrfs tree is too deep"));
    }
    let none = BlockMap::new();
    let node = read_node(fs, &none, bytenr)?;
    if node.is_leaf() {
        return Ok(last_key_in(&node, lo, hi));
    }
    let mut n: usize = node.ptrs.len();
    while n > 0
        invariant
            n <= node.ptrs@.len(),
            depth > 0,
            last_below(fs@, bytenr, *lo, *hi, depth) == last_child(
                fs@,
                node.ptrs@,
                n as nat,
                *lo,
                *hi,
                (depth - 1) as u8,
            ),
        decreases n,
    {
        reveal(last_child);
        reveal(last_below);
        if child_may_hold(&node.ptrs, n - 1, lo, hi) {
            match find_last(fs, node.ptrs[n - 1].blockptr, lo, hi, depth - 1)? {
                Some(k) => {
                    return Ok(Some(k));
                },
                None => {},
            }
        }
        n -= 1;
    }
    reveal(last_child);
    reveal(last_below);
    Ok(None)
}

proof fn within_grows(items: Seq<Item>, n: int, lo: Key, hi: Key)
    requires
        0 <= n <= items.len(),
        within(items.take(n), lo, hi).len() > 0,
    ensures
        within(items, lo, hi).len() > 0,
        within(items, lo, hi)[0] == within(items.take(n), lo, hi)[0],
    decreases items.len(),
{
    if n == items.len() {
        assert(items.take(n) =~= items);
    } else {
        assert(items.drop_last().take(n) =~= items.take(n));
        within_grows(items.drop_last(), n, lo, hi);
    }
}

fn first_key_in(node: &Node, lo: &Key, hi: &Key) -> (r: Option<Key>)
    ensures
        r == first_key(within(node@.items, *lo, *hi)),
{
    let ghost all = node@.items;
    let n: usize = node.items.len();
    let mut i: usize = 0;
    assert(all.take(0) =~= Seq::<Item>::empty());
    while i < n
        invariant
            i <= n,
            n == node.items@.len(),
            all == items_of(node.items@),
            all == node@.items,
            within(all.take(i as int), *lo, *hi).len() == 0,
        decreases n - i,
    {
        proof {
            assert(all.take(i + 1).drop_last() =~= all.take(i as int));
            assert(all.take(i + 1).last() == node.items@[i as int]@);
        }
        if !node.items[i].key.before(lo) && !hi.before(&node.items[i].key) {
            proof {
                within_grows(all, i + 1, *lo, *hi);
            }
            return Some(node.items[i].key);
        }
        i += 1;
    }
    assert(all.take(n as int) =~= all);
    None
}

/// The first key from `lo` to `hi` below the node at `bytenr`.
pub fn find_first<D: ReadAt>(fs: &Btrfs<D>, bytenr: u64, lo: &Key, hi: &Key, depth: u8) -> (r: Result<
    Option<Key>,
>)
    ensures
        match r {
            Ok(k) => first_below(fs@, bytenr, *lo, *hi, depth) == Ok::<Option<Key>, Fault>(k),
            Err(e) => first_below(fs@, bytenr, *lo, *hi, depth) == Err::<Option<Key>, Fault>(e@)
                || (!fs.steady() && e@ is Io),
        },
    decreases depth,
{
    reveal(first_below);
    reveal(first_child);
    if depth == 0 {
        return Err(LuksError::CorruptFs("btrfs tree is too deep"));
    }
    let none = BlockMap::new();
    let node = read_node(fs, &none, bytenr)?;
    if node.is_leaf() {
        return Ok(first_key_in(&node, lo, hi));
    }
    let n: usize = node.ptrs.len();
    let mut i: usize = 0;
    while i < n
        invariant
            i <= n,
            n == node.ptrs@.len(),
            depth > 0,
            first_below(fs@, bytenr, *lo, *hi, depth) == first_child(
                fs@,
                node.ptrs@,
                (n - i) as nat,
                *lo,
                *hi,
                (depth - 1) as u8,
            ),
        decreases n - i,
    {
        reveal(first_child);
        reveal(first_below);
        if child_may_hold(&node.ptrs, i, lo, hi) {
            match find_first(fs, node.ptrs[i].blockptr, lo, hi, depth - 1)? {
                Some(k) => {
                    return Ok(Some(k));
                },
                None => {},
            }
        }
        i += 1;
    }
    reveal(first_child);
    reveal(first_below);
    Ok(None)
}

/// The highest real inode number in the tree at `root`, or 256.
///
/// Reserved objectids count down from the top of the range and sort behind
/// every real inode, so they are left out.
pub open spec fn max_inode(fs: FsV) -> Outcome<u64> {
    match last_below(
        fs,
        fs.fs_tree.bytenr,
        Key { objectid: 256, item_type: 0, offset: 0 },
        Key { objectid: 0xFFFF_FFFF_FFFF_FEFF, item_type: 255, offset: u64::MAX },
        MAX_DEPTH,
    ) {
        Err(e) => Err(e),
        Ok(Some(k)) => Ok(k.objectid),
        Ok(None) => Ok(256),
    }
}

/// The highest real inode number in the file tree, or 256.
pub fn find_max_inode<D: ReadAt>(fs: &Btrfs<D>) -> (r: Result<u64>)
    ensures
        tracks(fs.steady(), r, max_inode(fs@)),
{
    let lo = Key::new(256, 0, 0);
    let hi = Key::new(0xFFFF_FFFF_FFFF_FEFF, 255, u64::MAX);
    match find_last(fs, fs.fs_tree().bytenr, &lo, &hi, MAX_DEPTH)? {
        Some(k) => Ok(k.objectid),
        None => Ok(256),
    }
}

} // verus!
