//! Searching and copying sequences.

use vstd::prelude::*;

verus! {

/// The first position of `s` whose element satisfies `f`, or the length.
pub open spec fn first_idx<T>(s: Seq<T>, f: spec_fn(T) -> bool) -> int
    decreases s.len(),
{
    if s.len() == 0 {
        0
    } else {
        let p = first_idx(s.drop_last(), f);
        if p < s.len() - 1 || f(s.last()) {
            p
        } else {
            s.len() as int
        }
    }
}

/// What makes a position the first.
pub proof fn first_idx_props<T>(s: Seq<T>, f: spec_fn(T) -> bool)
    ensures
        0 <= first_idx(s, f) <= s.len(),
        forall|j: int| 0 <= j < first_idx(s, f) ==> !f(#[trigger] s[j]),
        first_idx(s, f) < s.len() ==> f(s[first_idx(s, f)]),
    decreases s.len(),
{
    if s.len() > 0 {
        first_idx_props(s.drop_last(), f);
        let p = first_idx(s.drop_last(), f);
        assert forall|j: int| 0 <= j < first_idx(s, f) implies !f(#[trigger] s[j]) by {
            if j < s.len() - 1 {
                assert(s.drop_last()[j] == s[j]);
            }
        }
        if p < s.len() - 1 {
            assert(s.drop_last()[p] == s[p]);
        }
    }
}

/// A position with the properties of the first is the first.
pub proof fn first_idx_is<T>(s: Seq<T>, f: spec_fn(T) -> bool, p: int)
    requires
        0 <= p <= s.len(),
        forall|j: int| 0 <= j < p ==> !f(#[trigger] s[j]),
        p < s.len() ==> f(s[p]),
    ensures
        first_idx(s, f) == p,
{
    first_idx_props(s, f);
    let q = first_idx(s, f);
    if q < p {
        assert(!f(s[q]));
    } else if p < q {
        assert(!f(s[p]));
    }
}

/// A copy of a vector of plain values.
pub fn copy_vec<T: Copy>(v: &Vec<T>) -> (r: Vec<T>)
    ensures
        r@ == v@,
{
    let n: usize = v.len();
    let mut r: Vec<T> = Vec::with_capacity(n);
    let mut i: usize = 0;
    while i < n
        invariant
            i <= n,
            n == v@.len(),
            r@ == v@.take(i as int),
        decreases n - i,
    {
        r.push(v[i]);
        i += 1;
        assert(r@ =~= v@.take(i as int));
    }
    assert(r@ =~= v@);
    r
}

/// Append copies of the elements of `v` to `r`.
pub fn append_vec<T: Copy>(r: &mut Vec<T>, v: &Vec<T>)
    ensures
        final(r)@ == old(r)@ + v@,
{
    let mut c = copy_vec(v);
    r.append(&mut c);
}

} // verus!
