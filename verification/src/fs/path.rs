//! Slash-separated paths.

use vstd::prelude::*;

verus! {

/// The last position of `/` in `s`, or -1.
pub open spec fn last_slash(s: Seq<char>) -> int
    decreases s.len(),
{
    if s.len() == 0 {
        -1
    } else if s.last() == '/' {
        s.len() - 1
    } else {
        last_slash(s.drop_last())
    }
}

pub proof fn last_slash_props(s: Seq<char>)
    ensures
        -1 <= last_slash(s) < s.len(),
        last_slash(s) >= 0 ==> s[last_slash(s)] == '/',
        forall|j: int| last_slash(s) < j < s.len() ==> s[j] != '/',
    decreases s.len(),
{
    if s.len() > 0 && s.last() != '/' {
        last_slash_props(s.drop_last());
        assert forall|j: int| last_slash(s) < j < s.len() implies s[j] != '/' by {
            if j < s.len() - 1 {
                assert(s.drop_last()[j] == s[j]);
            }
        }
    }
}

proof fn last_slash_is(s: Seq<char>, i: int)
    requires
        -1 <= i < s.len(),
        i >= 0 ==> s[i] == '/',
        forall|j: int| i < j < s.len() ==> s[j] != '/',
    ensures
        last_slash(s) == i,
{
    last_slash_props(s);
    let k = last_slash(s);
    if k < i {
        assert(s[i] != '/');
    } else if i < k {
        assert(s[k] != '/');
    }
}

/// The pieces of `s` between slashes.
pub open spec fn pieces(s: Seq<char>) -> Seq<Seq<char>>
    decreases s.len(),
    via pieces_shrink
{
    let i = last_slash(s);
    if i < 0 {
        seq![s]
    } else {
        pieces(s.take(i)).push(s.skip(i + 1))
    }
}

#[via_fn]
proof fn pieces_shrink(s: Seq<char>) {
    last_slash_props(s);
}

/// Whether a piece names something: it is neither empty nor `.`.
pub open spec fn names(p: Seq<char>) -> bool {
    p.len() > 0 && p != seq!['.']
}

/// The pieces that name something.
pub open spec fn named(ps: Seq<Seq<char>>) -> Seq<Seq<char>>
    decreases ps.len(),
{
    if ps.len() == 0 {
        Seq::empty()
    } else if names(ps.last()) {
        named(ps.drop_last()).push(ps.last())
    } else {
        named(ps.drop_last())
    }
}

/// The components of a path.
pub open spec fn components(s: Seq<char>) -> Seq<Seq<char>> {
    named(pieces(s))
}

/// The texts of a sequence of strings.
pub open spec fn texts(v: Seq<&str>) -> Seq<Seq<char>> {
    v.map_values(|x: &str| x@)
}

/// Whether `p` names something.
fn is_name(p: &str) -> (r: bool)
    ensures
        r == names(p@),
{
    let n: usize = p.unicode_len();
    if n == 0 {
        return false;
    }
    if n == 1 && p.get_char(0) == '.' {
        assert(p@ =~= seq!['.']);
        return false;
    }
    proof {
        if p@ == seq!['.'] {
            assert(p@.len() == 1 && p@[0] == '.');
        }
    }
    true
}

proof fn pieces_step(s: Seq<char>, start: int, i: int)
    requires
        0 <= start <= i <= s.len(),
        start > 0 ==> s[start - 1] == '/',
        forall|j: int| start <= j < i ==> s[j] != '/',
    ensures
        pieces(s.take(i)) == if start == 0 {
            seq![s.subrange(start, i)]
        } else {
            pieces(s.take(start - 1)).push(s.subrange(start, i))
        },
{
    last_slash_is(s.take(i), start - 1);
    if start == 0 {
        assert(s.take(i) =~= s.subrange(start, i));
    } else {
        assert(s.take(i).take(start - 1) =~= s.take(start - 1));
        assert(s.take(i).skip(start) =~= s.subrange(start, i));
    }
}

/// What has been found before the piece that begins at `start`.
pub open spec fn found_before(s: Seq<char>, start: int) -> Seq<Seq<char>> {
    if start == 0 {
        Seq::empty()
    } else {
        named(pieces(s.take(start - 1)))
    }
}

proof fn named_step(s: Seq<char>, start: int, i: int)
    requires
        0 <= start <= i <= s.len(),
        start > 0 ==> s[start - 1] == '/',
        forall|j: int| start <= j < i ==> s[j] != '/',
    ensures
        named(pieces(s.take(i))) == if names(s.subrange(start, i)) {
            found_before(s, start).push(s.subrange(start, i))
        } else {
            found_before(s, start)
        },
{
    pieces_step(s, start, i);
    let ps = pieces(s.take(i));
    if start == 0 {
        assert(ps.drop_last() =~= Seq::<Seq<char>>::empty());
        assert(named(ps.drop_last()) =~= Seq::<Seq<char>>::empty());
    } else {
        assert(ps.drop_last() =~= pieces(s.take(start - 1)));
    }
    assert(ps.last() == s.subrange(start, i));
}

/// Split a path into its components.
pub fn split_path<'a>(path: &'a str) -> (r: Vec<&'a str>)
    ensures
        texts(r@) == components(path@),
{
    let ghost s = path@;
    let n: usize = path.unicode_len();
    let mut out: Vec<&'a str> = Vec::new();
    let mut start: usize = 0;
    let mut i: usize = 0;
    assert(texts(out@) =~= Seq::<Seq<char>>::empty());
    while i < n
        invariant
            start <= i <= n,
            s == path@,
            n == s.len(),
            start > 0 ==> s[start - 1] == '/',
            forall|j: int| start <= j < i ==> s[j] != '/',
            texts(out@) == found_before(s, start as int),
        decreases n - i,
    {
        if path.get_char(i) == '/' {
            proof {
                named_step(s, start as int, i as int);
            }
            let p = path.substring_char(start, i);
            if is_name(p) {
                let ghost before = out@;
                out.push(p);
                assert(texts(out@) =~= texts(before).push(p@));
            }
            start = i + 1;
        }
        i += 1;
    }
    proof {
        named_step(s, start as int, n as int);
        assert(s.take(n as int) =~= s);
    }
    let p = path.substring_char(start, n);
    if is_name(p) {
        let ghost before = out@;
        out.push(p);
        assert(texts(out@) =~= texts(before).push(p@));
    }
    out
}

/// Whether a piece is `.` or `..`.
pub open spec fn dots(p: Seq<char>) -> bool {
    p == seq!['.'] || p == seq!['.', '.']
}

/// Whether one of the pieces is `.` or `..`.
pub open spec fn any_dots(ps: Seq<Seq<char>>) -> bool {
    exists|i: int| 0 <= i < ps.len() && dots(#[trigger] ps[i])
}

fn is_dots(p: &str) -> (r: bool)
    ensures
        r == dots(p@),
{
    let n: usize = p.unicode_len();
    if n == 1 && p.get_char(0) == '.' {
        assert(p@ =~= seq!['.']);
        return true;
    }
    if n == 2 && p.get_char(0) == '.' && p.get_char(1) == '.' {
        assert(p@ =~= seq!['.', '.']);
        return true;
    }
    false
}

/// Whether one of the pieces before the one that begins at `start` is `.` or
/// `..`.
pub open spec fn dots_before(s: Seq<char>, start: int) -> bool {
    start > 0 && any_dots(pieces(s.take(start - 1)))
}

proof fn dots_step(s: Seq<char>, start: int, i: int)
    requires
        0 <= start <= i <= s.len(),
        start > 0 ==> s[start - 1] == '/',
        forall|j: int| start <= j < i ==> s[j] != '/',
    ensures
        any_dots(pieces(s.take(i))) == (dots_before(s, start) || dots(s.subrange(start, i))),
{
    pieces_step(s, start, i);
    let ps = pieces(s.take(i));
    let last = s.subrange(start, i);
    assert(ps.last() == last);
    if start > 0 {
        let front = pieces(s.take(start - 1));
        assert(ps == front.push(last));
        if any_dots(front) {
            let k = choose|k: int| 0 <= k < front.len() && dots(#[trigger] front[k]);
            assert(dots(ps[k]));
        }
        if any_dots(ps) {
            let k = choose|k: int| 0 <= k < ps.len() && dots(#[trigger] ps[k]);
            if k < front.len() {
                assert(dots(front[k]));
            }
        }
    }
    if dots(last) {
        assert(dots(ps[ps.len() - 1]));
    }
}

/// Whether a path has a piece that is `.` or `..`.
pub fn has_dots(path: &str) -> (r: bool)
    ensures
        r == any_dots(pieces(path@)),
{
    let ghost s = path@;
    let n: usize = path.unicode_len();
    let mut found: bool = false;
    let mut start: usize = 0;
    let mut i: usize = 0;
    while i < n
        invariant
            start <= i <= n,
            s == path@,
            n == s.len(),
            start > 0 ==> s[start - 1] == '/',
            forall|j: int| start <= j < i ==> s[j] != '/',
            found == dots_before(s, start as int),
        decreases n - i,
    {
        if path.get_char(i) == '/' {
            proof {
                dots_step(s, start as int, i as int);
            }
            found = is_dots(path.substring_char(start, i)) || found;
            start = i + 1;
        }
        i += 1;
    }
    proof {
        dots_step(s, start as int, n as int);
        assert(s.take(n as int) =~= s);
    }
    is_dots(path.substring_char(start, n)) || found
}

/// `s` without slashes at its end.
pub open spec fn without_trailing(s: Seq<char>) -> Seq<char>
    decreases s.len(),
{
    if s.len() == 0 || s.last() != '/' {
        s
    } else {
        without_trailing(s.drop_last())
    }
}

/// `s` without slashes at its start.
pub open spec fn without_leading(s: Seq<char>) -> Seq<char>
    decreases s.len(),
{
    if s.len() == 0 || s[0] != '/' {
        s
    } else {
        without_leading(s.skip(1))
    }
}

/// `s` without slashes at either end.
pub open spec fn trimmed(s: Seq<char>) -> Seq<char> {
    without_trailing(without_leading(s))
}

/// Take the slashes off both ends of a path.
pub fn trim_slashes<'a>(path: &'a str) -> (r: &'a str)
    ensures
        r@ == trimmed(path@),
{
    let ghost s = path@;
    let n: usize = path.unicode_len();
    let mut a: usize = 0;
    assert(s.skip(0) =~= s);
    while a < n && path.get_char(a) == '/'
        invariant
            a <= n,
            s == path@,
            n == s.len(),
            without_leading(s) == without_leading(s.skip(a as int)),
        decreases n - a,
    {
        assert(s.skip(a as int)[0] == s[a as int]);
        assert(s.skip(a as int).skip(1) =~= s.skip(a + 1));
        a += 1;
    }
    proof {
        if a < n {
            assert(s.skip(a as int)[0] == s[a as int]);
        }
        assert(without_leading(s) == s.skip(a as int));
    }
    let ghost t = s.skip(a as int);
    let mut b: usize = n;
    assert(t.take(n - a) =~= t);
    while b > a && path.get_char(b - 1) == '/'
        invariant
            a <= b <= n,
            s == path@,
            n == s.len(),
            t == s.skip(a as int),
            without_trailing(t) == without_trailing(t.take(b - a)),
        decreases b,
    {
        assert(t.take(b - a).last() == s[b - 1]);
        assert(t.take(b - a).drop_last() =~= t.take(b - a - 1));
        b -= 1;
    }
    proof {
        if b > a {
            assert(t.take(b - a).last() == s[b - 1]);
        }
        assert(t.take(b - a) =~= s.subrange(a as int, b as int));
    }
    path.substring_char(a, b)
}

/// Take the slashes off the end of a path.
pub fn trim_end<'a>(path: &'a str) -> (r: &'a str)
    ensures
        r@ == without_trailing(path@),
{
    let ghost s = path@;
    let n: usize = path.unicode_len();
    let mut b: usize = n;
    assert(s.take(n as int) =~= s);
    while b > 0 && path.get_char(b - 1) == '/'
        invariant
            b <= n,
            s == path@,
            n == s.len(),
            without_trailing(s) == without_trailing(s.take(b as int)),
        decreases b,
    {
        assert(s.take(b as int).last() == s[b - 1]);
        assert(s.take(b as int).drop_last() =~= s.take(b - 1));
        b -= 1;
    }
    proof {
        if b > 0 {
            assert(s.take(b as int).last() == s[b - 1]);
        }
        assert(s.take(b as int) =~= s.subrange(0, b as int));
    }
    path.substring_char(0, b)
}

/// What stands before the last slash of `s`; empty if there is none.
pub open spec fn parent_part(s: Seq<char>) -> Seq<char> {
    if last_slash(s) < 0 {
        Seq::empty()
    } else {
        s.take(last_slash(s))
    }
}

/// What stands behind the last slash of `s`; all of it if there is none.
pub open spec fn name_part(s: Seq<char>) -> Seq<char> {
    s.skip(last_slash(s) + 1)
}

/// Split a path at its last slash.
pub fn split_last<'a>(path: &'a str) -> (r: (&'a str, &'a str))
    ensures
        r.0@ == parent_part(path@),
        r.1@ == name_part(path@),
{
    let ghost s = path@;
    let n: usize = path.unicode_len();
    let mut i: usize = n;
    while i > 0
        invariant
            i <= n,
            s == path@,
            n == s.len(),
            forall|j: int| i <= j < n ==> s[j] != '/',
        decreases i,
    {
        if path.get_char(i - 1) == '/' {
            proof {
                last_slash_is(s, i - 1);
            }
            let a = path.substring_char(0, i - 1);
            let b = path.substring_char(i, n);
            assert(a@ =~= parent_part(s));
            assert(b@ =~= name_part(s));
            return (a, b);
        }
        i -= 1;
    }
    proof {
        last_slash_is(s, -1);
    }
    let a = path.substring_char(0, 0);
    let b = path.substring_char(0, n);
    assert(a@ =~= parent_part(s));
    assert(b@ =~= name_part(s));
    (a, b)
}

/// Slashes at the end of a path name nothing.
pub proof fn trailing_names_nothing(s: Seq<char>)
    ensures
        components(without_trailing(s)) == components(s),
    decreases s.len(),
{
    if s.len() > 0 && s.last() == '/' {
        let t = s.drop_last();
        trailing_names_nothing(t);
        assert(s.take(s.len() - 1) =~= t);
        let ps = pieces(s);
        assert(s.skip(s.len() as int) =~= Seq::<char>::empty());
        assert(ps == pieces(t).push(Seq::<char>::empty()));
        assert(ps.drop_last() =~= pieces(t));
    }
}

/// What one piece names.
proof fn named_one(p: Seq<char>)
    ensures
        named(seq![p]) == if names(p) {
            seq![p]
        } else {
            Seq::empty()
        },
{
    assert(seq![p].drop_last() =~= Seq::<Seq<char>>::empty());
    assert(named(Seq::<Seq<char>>::empty()) == Seq::<Seq<char>>::empty());
    assert(seq![p] =~= Seq::<Seq<char>>::empty().push(p));
}

proof fn leading_slash_names_nothing(s: Seq<char>)
    requires
        s.len() > 0,
        s[0] == '/',
    ensures
        components(s.skip(1)) == components(s),
    decreases s.len(),
{
    let r = s.skip(1);
    let i = last_slash(s);
    last_slash_props(s);
    assert(i >= 0) by {
        if i < 0 {
            assert(s[0] != '/');
        }
    }
    last_slash_props(r);
    if i == 0 {
        assert(last_slash(r) < 0) by {
            if last_slash(r) >= 0 {
                assert(r[last_slash(r)] == s[last_slash(r) + 1]);
            }
        }
        let e = s.take(0);
        assert(last_slash(e) < 0);
        assert(pieces(e) == seq![e]);
        let ps = pieces(s);
        assert(ps == pieces(e).push(s.skip(1)));
        assert(ps.drop_last() =~= seq![e]);
        named_one(e);
        assert(pieces(r) == seq![r]);
        named_one(r);
        assert(seq![r] =~= Seq::<Seq<char>>::empty().push(r));
    } else {
        last_slash_is(r, i - 1);
        let t = s.take(i);
        assert(t[0] == '/');
        leading_slash_names_nothing(t);
        assert(r.take(i - 1) =~= t.skip(1));
        assert(r.skip(i) =~= s.skip(i + 1));
        assert(pieces(s) == pieces(t).push(s.skip(i + 1)));
        assert(pieces(r) == pieces(t.skip(1)).push(s.skip(i + 1)));
        assert(pieces(s).drop_last() =~= pieces(t));
        assert(pieces(r).drop_last() =~= pieces(t.skip(1)));
    }
}

/// Slashes at the start of a path name nothing.
pub proof fn leading_names_nothing(s: Seq<char>)
    ensures
        components(without_leading(s)) == components(s),
    decreases s.len(),
{
    if s.len() > 0 && s[0] == '/' {
        leading_slash_names_nothing(s);
        leading_names_nothing(s.skip(1));
    }
}

/// A path leads where its parent does, and from there on by its name.
pub proof fn parent_then_name(path: Seq<char>)
    requires
        names(name_part(trimmed(path))),
    ensures
        components(path) == components(parent_part(trimmed(path))).push(
            name_part(trimmed(path)),
        ),
{
    let s = trimmed(path);
    leading_names_nothing(path);
    trailing_names_nothing(without_leading(path));
    last_slash_props(s);
    let i = last_slash(s);
    let ps = pieces(s);
    if i < 0 {
        assert(ps == seq![s]);
        assert(name_part(s) =~= s);
        named_one(s);
        let e = parent_part(s);
        assert(e =~= Seq::<char>::empty());
        assert(last_slash(e) < 0);
        assert(pieces(e) == seq![e]);
        named_one(e);
        assert(seq![s] =~= Seq::<Seq<char>>::empty().push(s));
    } else {
        assert(ps == pieces(s.take(i)).push(s.skip(i + 1)));
        assert(ps.drop_last() =~= pieces(s.take(i)));
    }
}

} // verus!
