//! Stable sorting by an integer rank.

use vstd::prelude::*;

verus! {

/// A value with a position in a linear order.
pub trait Ranked: Sized {
    /// The position.
    spec fn rank(&self) -> int;

    /// Whether `self` ranks no higher than `other`.
    fn rank_le(&self, other: &Self) -> (r: bool)
        ensures
            r == (self.rank() <= other.rank()),
    ;
}

/// Ranks never decrease along `s`.
pub open spec fn ascending<T: Ranked>(s: Seq<T>) -> bool {
    forall|i: int, j: int| 0 <= i <= j < s.len() ==> s[i].rank() <= s[j].rank()
}

/// `e` placed behind the last element of `s` that ranks no higher.
pub open spec fn insert_ranked<T: Ranked>(s: Seq<T>, e: T) -> Seq<T>
    decreases s.len(),
{
    if s.len() == 0 || s.last().rank() <= e.rank() {
        s.push(e)
    } else {
        insert_ranked(s.drop_last(), e).push(s.last())
    }
}

/// The elements of `s` in ascending rank; elements of one rank keep their order.
pub open spec fn stable_sort<T: Ranked>(s: Seq<T>) -> Seq<T>
    decreases s.len(),
{
    if s.len() == 0 {
        s
    } else {
        insert_ranked(stable_sort(s.drop_last()), s.last())
    }
}

pub proof fn insert_ranked_facts<T: Ranked>(s: Seq<T>, e: T)
    ensures
        insert_ranked(s, e).len() == s.len() + 1,
        insert_ranked(s, e).to_multiset() == s.to_multiset().insert(e),
        ascending(s) ==> ascending(insert_ranked(s, e)),
        ascending(s) ==> insert_ranked(s, e).last().rank() == if s.len() == 0
            || s.last().rank() <= e.rank() {
            e.rank()
        } else {
            s.last().rank()
        },
    decreases s.len(),
{
    broadcast use vstd::seq_lib::group_to_multiset_ensures;

    if s.len() == 0 || s.last().rank() <= e.rank() {
    } else {
        insert_ranked_facts(s.drop_last(), e);
        assert(s =~= s.drop_last().push(s.last()));
        assert(insert_ranked(s, e).to_multiset() =~= s.to_multiset().insert(e));
    }
}

/// Sorting keeps the elements and puts their ranks in ascending order.
pub proof fn stable_sort_sorts<T: Ranked>(s: Seq<T>)
    ensures
        stable_sort(s).len() == s.len(),
        stable_sort(s).to_multiset() == s.to_multiset(),
        ascending(stable_sort(s)),
    decreases s.len(),
{
    broadcast use vstd::seq_lib::group_to_multiset_ensures;

    if s.len() > 0 {
        stable_sort_sorts(s.drop_last());
        insert_ranked_facts(stable_sort(s.drop_last()), s.last());
        assert(s =~= s.drop_last().push(s.last()));
    }
}

/// Sorting what is already in order changes nothing.
pub proof fn stable_sort_of_ascending<T: Ranked>(s: Seq<T>)
    requires
        ascending(s),
    ensures
        stable_sort(s) == s,
    decreases s.len(),
{
    if s.len() > 0 {
        assert(ascending(s.drop_last()));
        stable_sort_of_ascending(s.drop_last());
        assert(s =~= s.drop_last().push(s.last()));
    }
}

proof fn insert_ranked_map<T: Ranked, U: Ranked>(s: Seq<T>, e: T, f: spec_fn(T) -> U)
    requires
        forall|x: T| (#[trigger] f(x)).rank() == x.rank(),
    ensures
        insert_ranked(s, e).map_values(f) == insert_ranked(s.map_values(f), f(e)),
    decreases s.len(),
{
    if s.len() == 0 || s.last().rank() <= e.rank() {
        assert(s.push(e).map_values(f) =~= s.map_values(f).push(f(e)));
    } else {
        insert_ranked_map(s.drop_last(), e, f);
        assert(s.map_values(f).drop_last() =~= s.drop_last().map_values(f));
        assert(insert_ranked(s, e).map_values(f) =~= insert_ranked(s.drop_last(), e).map_values(
            f,
        ).push(f(s.last())));
    }
}

/// Sorting commutes with a mapping that keeps ranks.
pub proof fn stable_sort_map<T: Ranked, U: Ranked>(s: Seq<T>, f: spec_fn(T) -> U)
    requires
        forall|x: T| (#[trigger] f(x)).rank() == x.rank(),
    ensures
        stable_sort(s).map_values(f) == stable_sort(s.map_values(f)),
    decreases s.len(),
{
    if s.len() == 0 {
        assert(s.map_values(f) =~= Seq::<U>::empty());
    } else {
        stable_sort_map(s.drop_last(), f);
        insert_ranked_map(stable_sort(s.drop_last()), s.last(), f);
        assert(s.map_values(f).drop_last() =~= s.drop_last().map_values(f));
    }
}

/// Inserting puts an element behind those that rank no higher.
pub proof fn insert_ranked_position<T: Ranked>(s: Seq<T>, e: T, p: int)
    requires
        0 <= p <= s.len(),
        forall|i: int| p <= i < s.len() ==> (#[trigger] s[i]).rank() > e.rank(),
        p > 0 ==> s[p - 1].rank() <= e.rank(),
    ensures
        insert_ranked(s, e) == s.insert(p, e),
    decreases s.len(),
{
    if p == s.len() {
        assert(s.insert(p, e) =~= s.push(e));
    } else {
        insert_ranked_position(s.drop_last(), e, p);
        assert(s.insert(p, e) =~= s.drop_last().insert(p, e).push(s.last()));
    }
}

/// Sort `v` in place.
pub fn sort_ranked<T: Ranked>(v: &mut Vec<T>)
    ensures
        final(v)@ == stable_sort(old(v)@),
{
    let n: usize = v.len();
    let mut i: usize = 0;
    assert(v@.subrange(0, 0) =~= Seq::<T>::empty());
    assert(old(v)@.subrange(0, 0) =~= Seq::<T>::empty());
    while i < n
        invariant
            i <= n,
            v@.len() == n,
            n == old(v)@.len(),
            v@.subrange(0, i as int) == stable_sort(old(v)@.subrange(0, i as int)),
            v@.subrange(i as int, n as int) == old(v)@.subrange(i as int, n as int),
        decreases n - i,
    {
        let ghost before = v@;
        let mut p: usize = i;
        while p > 0 && !v[p - 1].rank_le(&v[i])
            invariant
                p <= i < n,
                v@ == before,
                v@.len() == n,
                forall|k: int| p <= k < i ==> (#[trigger] v@[k]).rank() > v@[i as int].rank(),
            decreases p,
        {
            p -= 1;
        }
        let x = v.remove(i);
        v.insert(p, x);
        proof {
            let pre = before.subrange(0, i as int);
            insert_ranked_position(pre, x, p as int);
            assert(x == before.subrange(i as int, n as int)[0]);
            assert(old(v)@.subrange(i as int, n as int)[0] == old(v)@[i as int]);
            let o1 = old(v)@.subrange(0, i + 1);
            assert(o1.drop_last() =~= old(v)@.subrange(0, i as int));
            assert(o1.last() == x);
            assert(v@.subrange(0, i + 1) =~= pre.insert(p as int, x));
            assert forall|k: int| 0 <= k < n - (i + 1) implies #[trigger] v@.subrange(i + 1, n as int)[k]
                == old(v)@.subrange(i + 1, n as int)[k] by {
                assert(before.subrange(i as int, n as int)[k + 1] == old(v)@.subrange(
                    i as int,
                    n as int,
                )[k + 1]);
            }
            assert(v@.subrange(i + 1, n as int) =~= old(v)@.subrange(i + 1, n as int));
        }
        i += 1;
    }
    assert(v@.subrange(0, n as int) =~= v@);
    assert(old(v)@.subrange(0, n as int) =~= old(v)@);
}

impl Ranked for (u64, u64) {
    open spec fn rank(&self) -> int {
        self.0 as int
    }

    fn rank_le(&self, other: &Self) -> (r: bool) {
        self.0 <= other.0
    }
}

} // verus!
