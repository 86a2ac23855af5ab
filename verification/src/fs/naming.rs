//! How paths divide into names, whatever the slashes.

use vstd::prelude::*;

use crate::fs::path::{components, last_slash, last_slash_props, named, pieces};

verus! {

/// A name that can stand in a path: it is not empty, not `.`, and has no slash.
pub open spec fn is_step(c: Seq<char>) -> bool {
    &&& c.len() > 0
    &&& !(c.len() == 1 && c[0] == '.')
    &&& forall|i: int| 0 <= i < c.len() ==> #[trigger] c[i] != '/'
}

proof fn slash_at(s: Seq<char>, i: int)
    requires
        -1 <= i < s.len(),
        i >= 0 ==> s[i] == '/',
        forall|j: int| i < j < s.len() ==> s[j] != '/',
    ensures
        last_slash(s) == i,
{
    last_slash_props(s);
    let k = last_slash(s);
    if k < i {
        assert(s[i] != '/');
    } else if i < k {
        assert(s[k] != '/');
    }
}

/// The empty path and `.` have no names in them; a name by itself has one.
pub proof fn name_alone(c: Seq<char>)
    requires
        forall|i: int| 0 <= i < c.len() ==> #[trigger] c[i] != '/',
    ensures
        components(c) == if is_step(c) {
            seq![c]
        } else {
            Seq::empty()
        },
{
    slash_at(c, -1);
    assert(pieces(c) == seq![c]);
    assert(seq![c].drop_last() =~= Seq::<Seq<char>>::empty());
    assert(named(Seq::<Seq<char>>::empty()) == Seq::<Seq<char>>::empty());
    assert(seq![c] =~= Seq::<Seq<char>>::empty().push(c));
    if c.len() == 1 && c[0] == '.' {
        assert(c =~= seq!['.']);
    }
}

/// A path of two parts with a slash between them has the names of the first, then
/// those of the second.
pub proof fn slash_joins(a: Seq<char>, b: Seq<char>)
    ensures
        components(a + seq!['/'] + b) == components(a) + components(b),
    decreases b.len(),
{
    let s = a + seq!['/'] + b;
    let n = a.len() as int;
    last_slash_props(b);
    let i = last_slash(b);
    slash_at(s, n + 1 + i);
    if i < 0 {
        name_alone(b);
        assert(s.take(n) =~= a);
        assert(s.skip(n + 1) =~= b);
        assert(pieces(s) == pieces(a).push(b));
        assert(pieces(s).drop_last() =~= pieces(a));
        if is_step(b) {
            assert(components(a) + seq![b] =~= components(a).push(b));
            assert(b != seq!['.']) by {
                assert(seq!['.'].len() == 1 && seq!['.'][0] == '.');
            }
        } else {
            assert(components(a) + Seq::<Seq<char>>::empty() =~= components(a));
            if b.len() == 1 {
                assert(b =~= seq!['.']);
            }
        }
    } else {
        let front = b.take(i);
        slash_joins(a, front);
        assert(s.take(n + 1 + i) =~= a + seq!['/'] + front);
        assert(s.skip(n + 2 + i) =~= b.skip(i + 1));
        let p = b.skip(i + 1);
        assert(pieces(s) == pieces(a + seq!['/'] + front).push(p));
        assert(pieces(b) == pieces(front).push(p));
        assert(pieces(s).drop_last() =~= pieces(a + seq!['/'] + front));
        assert(pieces(b).drop_last() =~= pieces(front));
        assert(components(a) + components(front).push(p) =~= (components(a) + components(
            front,
        )).push(p));
    }
}

/// What a path divides into are names.
pub proof fn components_are_steps(s: Seq<char>)
    ensures
        forall|k: int| 0 <= k < components(s).len() ==> is_step(#[trigger] components(s)[k]),
    decreases s.len(),
{
    last_slash_props(s);
    let i = last_slash(s);
    if i < 0 {
        name_alone(s);
    } else {
        let a = s.take(i);
        let b = s.skip(i + 1);
        assert(s =~= a + seq!['/'] + b);
        slash_joins(a, b);
        components_are_steps(a);
        name_alone(b);
        assert forall|k: int| 0 <= k < components(s).len() implies is_step(
            #[trigger] components(s)[k],
        ) by {
            if k < components(a).len() {
                assert(components(s)[k] == components(a)[k]);
            } else {
                assert(components(s)[k] == components(b)[k - components(a).len()]);
            }
        }
    }
}

} // verus!
