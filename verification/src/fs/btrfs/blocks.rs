//! Tree blocks that a transaction has built but not yet written.

use std::collections::HashMap;

use vstd::prelude::*;
use vstd::std_specs::iter::IteratorSpec;

use crate::fs::btrfs::write::extent_tree::cap64;
use crate::sort::{ascending, sort_ranked, stable_sort, stable_sort_sorts, Ranked};

verus! {

broadcast use vstd::std_specs::hash::group_hash_axioms;

impl Ranked for u64 {
    open spec fn rank(&self) -> int {
        *self as int
    }

    fn rank_le(&self, other: &Self) -> (r: bool) {
        *self <= *other
    }
}

/// `ks` lists the addresses in `d` in strictly ascending order.
pub open spec fn lists(ks: Seq<u64>, d: Set<u64>) -> bool {
    &&& forall|i: int, j: int| 0 <= i < j < ks.len() ==> ks[i] < ks[j]
    &&& ks.to_set() == d
}

/// The addresses of `m` in ascending order.
pub open spec fn addresses_of(m: Map<u64, Seq<u8>>) -> Seq<u64> {
    choose|ks: Seq<u64>| lists(ks, m.dom())
}

/// There is one ascending list of a set of addresses.
pub proof fn lists_unique(a: Seq<u64>, b: Seq<u64>, d: Set<u64>)
    requires
        lists(a, d),
        lists(b, d),
    ensures
        a == b,
    decreases a.len(),
{
    if a.len() == 0 {
        if b.len() > 0 {
            assert(b.to_set().contains(b[0]));
            assert(a.contains(b[0]));
        }
        assert(a =~= b);
    } else {
        assert(a.to_set().contains(a.last()));
        assert(b.contains(a.last()));
        assert(b.to_set().contains(b.last()));
        assert(a.contains(b.last()));
        let i = choose|i: int| 0 <= i < b.len() && b[i] == a.last();
        let j = choose|j: int| 0 <= j < a.len() && a[j] == b.last();
        assert(a.last() == b.last());
        let e = d.remove(a.last());
        lists_tail(a, d);
        lists_tail(b, d);
        lists_unique(a.drop_last(), b.drop_last(), e);
        assert(a =~= a.drop_last().push(a.last()));
        assert(b =~= b.drop_last().push(b.last()));
    }
}

proof fn lists_any(d: Set<u64>)
    requires
        d.finite(),
    ensures
        exists|ks: Seq<u64>| lists(ks, d),
    decreases d.len(),
{
    if d.len() == 0 {
        assert(d =~= Set::<u64>::empty());
        let none = Seq::<u64>::empty();
        assert(none.to_set() =~= d);
        assert(lists(none, d));
    } else {
        let x = d.choose();
        lists_any(d.remove(x));
        let ks = choose|ks: Seq<u64>| lists(ks, d.remove(x));
        let all = ks.push(x);
        assert forall|i: int, j: int| 0 <= i < all.len() && 0 <= j < all.len() && i
            != j implies all[i] != all[j] by {
            if i < ks.len() && j < ks.len() {
                if i < j {
                    assert(ks[i] < ks[j]);
                } else {
                    assert(ks[j] < ks[i]);
                }
            } else {
                let k = if i < ks.len() {
                    i
                } else {
                    j
                };
                assert(ks.contains(ks[k]));
                assert(ks.to_set().contains(ks[k]));
            }
        }
        assert(all.to_set() =~= d) by {
            assert forall|y: u64| all.to_set().contains(y) == d.contains(y) by {
                if all.contains(y) {
                    let i = choose|i: int| 0 <= i < all.len() && all[i] == y;
                    if i < ks.len() {
                        assert(ks.contains(y));
                        assert(ks.to_set().contains(y));
                    }
                }
                if d.contains(y) {
                    if y == x {
                        assert(all[ks.len() as int] == y);
                    } else {
                        assert(ks.to_set().contains(y));
                        let i = choose|i: int| 0 <= i < ks.len() && ks[i] == y;
                        assert(all[i] == y);
                    }
                }
            }
        }
        stable_sort_sorts(all);
        listing_of_sorted(all, stable_sort(all), d);
    }
}

/// A finite set of blocks has an ascending list of addresses.
pub proof fn lists_exists(m: Map<u64, Seq<u8>>)
    requires
        m.dom().finite(),
    ensures
        lists(addresses_of(m), m.dom()),
{
    lists_any(m.dom());
}

proof fn lists_tail(a: Seq<u64>, d: Set<u64>)
    requires
        lists(a, d),
        a.len() > 0,
    ensures
        lists(a.drop_last(), d.remove(a.last())),
{
    let t = a.drop_last();
    assert forall|x: u64| t.to_set().contains(x) == d.remove(a.last()).contains(x) by {
        if t.to_set().contains(x) {
            let i = choose|i: int| 0 <= i < t.len() && t[i] == x;
            assert(a[i] == x);
            assert(a.contains(x));
            assert(a.to_set().contains(x));
        }
        if d.remove(a.last()).contains(x) {
            assert(a.to_set().contains(x));
            assert(a.contains(x));
            let i = choose|i: int| 0 <= i < a.len() && a[i] == x;
            assert(t[i] == x);
            assert(t.contains(x));
        }
    }
    assert(t.to_set() =~= d.remove(a.last()));
}

/// Bytes of the blocks at `ks`.
pub open spec fn bytes_at(m: Map<u64, Seq<u8>>, ks: Seq<u64>) -> int
    decreases ks.len(),
{
    if ks.len() == 0 {
        0
    } else {
        bytes_at(m, ks.drop_last()) + m[ks.last()].len()
    }
}

pub proof fn bytes_at_bound(m: Map<u64, Seq<u8>>, ks: Seq<u64>)
    ensures
        bytes_at(m, ks) >= 0,
    decreases ks.len(),
{
    if ks.len() > 0 {
        bytes_at_bound(m, ks.drop_last());
    }
}

/// Tree blocks by logical address.
#[derive(Debug)]
pub struct BlockMap {
    map: HashMap<u64, Vec<u8>>,
}

impl View for BlockMap {
    type V = Map<u64, Seq<u8>>;

    closed spec fn view(&self) -> Map<u64, Seq<u8>> {
        Map::new(|k: u64| self.map@.contains_key(k), |k: u64| self.map@[k]@)
    }
}

impl Clone for BlockMap {
    fn clone(&self) -> (r: Self)
        ensures
            r@ == self@,
    {
        BlockMap { map: self.map.clone() }
    }
}

impl BlockMap {
    /// No blocks.
    pub fn new() -> (r: Self)
        ensures
            r@ == Map::<u64, Seq<u8>>::empty(),
    {
        let r = BlockMap { map: HashMap::new() };
        assert(r@ =~= Map::<u64, Seq<u8>>::empty());
        r
    }

    /// The block at `bytenr`.
    pub fn get(&self, bytenr: u64) -> (r: Option<&Vec<u8>>)
        ensures
            match r {
                Some(v) => self@.contains_key(bytenr) && v@ == self@[bytenr],
                None => !self@.contains_key(bytenr),
            },
    {
        self.map.get(&bytenr)
    }

    /// Whether there is a block at `bytenr`.
    pub fn contains_key(&self, bytenr: u64) -> (r: bool)
        ensures
            r == self@.contains_key(bytenr),
    {
        self.map.contains_key(&bytenr)
    }

    /// Put a block at `bytenr`.
    pub fn insert(&mut self, bytenr: u64, block: Vec<u8>)
        ensures
            final(self)@ == old(self)@.insert(bytenr, block@),
    {
        self.map.insert(bytenr, block);
        assert(self@ =~= old(self)@.insert(bytenr, block@));
    }

    /// Drop the block at `bytenr`.
    pub fn remove(&mut self, bytenr: u64)
        ensures
            final(self)@ == old(self)@.remove(bytenr),
    {
        self.map.remove(&bytenr);
        assert(self@ =~= old(self)@.remove(bytenr));
    }

    /// Drop all blocks.
    pub fn clear(&mut self)
        ensures
            final(self)@ == Map::<u64, Seq<u8>>::empty(),
    {
        self.map.clear();
        assert(self@ =~= Map::<u64, Seq<u8>>::empty());
    }

    /// Whether there are no blocks.
    pub fn is_empty(&self) -> (r: bool)
        ensures
            r == (self@ == Map::<u64, Seq<u8>>::empty()),
    {
        let r: bool = self.map.is_empty();
        proof {
            if r {
                assert(self.map@.dom() =~= Set::<u64>::empty());
                assert(self@ =~= Map::<u64, Seq<u8>>::empty());
            } else {
                let k = choose|k: u64| self.map@.dom().contains(k);
                if self.map@.dom() =~= Set::<u64>::empty() {
                }
                assert(self.map@.dom().contains(k));
                assert(self@.contains_key(k));
                assert(!Map::<u64, Seq<u8>>::empty().contains_key(k));
            }
        }
        r
    }

    /// The addresses of all blocks, ascending.
    pub fn addresses(&self) -> (r: Vec<u64>)
        ensures
            r@ == addresses_of(self@),
            lists(r@, self@.dom()),
    {
        let mut v: Vec<u64> = Vec::new();
        let ghost all = vstd::std_specs::hash::spec_keys_iter(&self.map).remaining().unref();
        for k in it: self.map.keys()
            invariant
                it.seq().unref() == all,
                v@ == all.take(it.index() as int),
        {
            v.push(*k);
            assert(v@ =~= all.take(it.index() as int + 1));
        }
        assert(v@ =~= all);
        let ghost before = v@;
        sort_ranked(&mut v);
        proof {
            stable_sort_sorts(before);
            listing_of_sorted(before, v@, self.map@.dom());
            assert(self@.dom() =~= self.map@.dom());
            lists_unique(v@, addresses_of(self@), self@.dom());
        }
        v
    }

    /// Bytes of all blocks, capped at `u64::MAX`.
    pub fn total_bytes(&self) -> (r: u64)
        ensures
            r == cap64(bytes_at(self@, addresses_of(self@))),
    {
        let ks = self.addresses();
        let n: usize = ks.len();
        let mut sum: u64 = 0;
        let mut i: usize = 0;
        assert(ks@.take(0) =~= Seq::<u64>::empty());
        while i < n
            invariant
                i <= n,
                n == ks@.len(),
                lists(ks@, self@.dom()),
                sum == cap64(bytes_at(self@, ks@.take(i as int))),
            decreases n - i,
        {
            proof {
                assert(ks@.take(i + 1).drop_last() =~= ks@.take(i as int));
                assert(ks@.to_set().contains(ks@[i as int]));
                bytes_at_bound(self@, ks@.take(i as int));
            }
            match self.get(ks[i]) {
                Some(v) => {
                    sum = sum.saturating_add(v.len() as u64);
                },
                None => {},
            }
            i += 1;
        }
        assert(ks@.take(n as int) =~= ks@);
        sum
    }
}

proof fn listing_of_sorted(a: Seq<u64>, b: Seq<u64>, d: Set<u64>)
    requires
        a.no_duplicates(),
        a.to_set() == d,
        ascending(b),
        b.len() == a.len(),
        b.to_multiset() == a.to_multiset(),
    ensures
        lists(b, d),
{
    broadcast use vstd::seq_lib::group_to_multiset_ensures;

    a.lemma_multiset_has_no_duplicates();
    assert(b.to_multiset() =~= a.to_multiset());
    b.lemma_multiset_has_no_duplicates_conv();
    assert forall|i: int, j: int| 0 <= i < j < b.len() implies b[i] < b[j] by {
        assert(b[i].rank() <= b[j].rank());
        assert(b[i] != b[j]);
    }
    assert forall|x: u64| b.to_set().contains(x) == d.contains(x) by {
        assert(b.contains(x) == (b.to_multiset().count(x) > 0));
        assert(a.contains(x) == (a.to_multiset().count(x) > 0));
        assert(a.to_set().contains(x) == a.contains(x));
    }
    assert(b.to_set() =~= d);
}

} // verus!
