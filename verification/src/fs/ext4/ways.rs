//! Where paths lead: name by name from the root directory, up again by `..`, and
//! on from where a link stands or from the root, as its target says.

use vstd::prelude::*;

use crate::error::Fault;
use crate::fs::ext4::data::content;
use crate::fs::ext4::dir::{raw_entries, RawV};
use crate::fs::ext4::path::{
    absolute, chased, child_of, file_at, found, found_no_follow, joined, link_at, link_text, named,
    popped, resolved, walk, Walk,
};
use crate::fs::ext4::volume::{inode_of, Ext4V, InodeV};
use crate::fs::lossy::lossy_text;
use crate::fs::naming::{components_are_steps, is_step, name_alone, slash_joins};
use crate::fs::path::{components, last_slash, last_slash_props, parent_part};
use crate::fs::FileType;
use crate::seqs::first_idx_is;

verus! {

/// Entry `i` of a directory is the first one called `c`.
pub open spec fn first_called(es: Seq<RawV>, i: int, c: Seq<char>) -> bool {
    &&& 0 <= i < es.len()
    &&& lossy_text(es[i].name) == c
    &&& forall|j: int| 0 <= j < i ==> lossy_text((#[trigger] es[j]).name) != c
}

/// Directory `dir` lists `to` as `c`.
pub open spec fn enters(fs: Ext4V, dir: InodeV, c: Seq<char>, to: InodeV) -> bool {
    &&& dir.kind() == FileType::Directory
    &&& raw_entries(fs, dir) matches Ok(es) && exists|i: int| #[trigger]
        first_called(es, i, c) && inode_of(fs, es[i].inode) == Ok::<InodeV, Fault>(to)
}

/// `way` are the files met from `from` on along `cs`, each listed in the directory
/// before it.
pub open spec fn goes(fs: Ext4V, from: InodeV, cs: Seq<Seq<char>>, way: Seq<InodeV>) -> bool {
    &&& way.len() == cs.len() + 1
    &&& way[0] == from
    &&& forall|i: int|
        0 <= i < cs.len() ==> #[trigger] cs[i] != ".."@ && enters(fs, way[i], cs[i], way[i + 1])
}

proof fn entering(fs: Ext4V, dir: InodeV, c: Seq<char>, to: InodeV, path: Seq<char>)
    requires
        enters(fs, dir, c, to),
    ensures
        child_of(fs, dir, c, path) == Ok::<InodeV, Fault>(to),
{
    let es = raw_entries(fs, dir)->Ok_0;
    let i = choose|i: int| #[trigger]
        first_called(es, i, c) && inode_of(fs, es[i].inode) == Ok::<InodeV, Fault>(to);
    first_idx_is(es, named(c), i);
}

/// After `n` names a walk stays where it has come to: no link is to be followed
/// there.
spec fn chased_or_last(
    fs: Ext4V,
    path: Seq<char>,
    n: nat,
    w: Walk,
    open: Seq<Seq<char>>,
    nested: nat,
) -> bool {
    n < components(path).len() ==> chased(fs, path, w, 8, open, nested) == Ok::<Walk, Fault>(w)
}

/// A walk that has come to `from` goes on along names that directories list.
proof fn walk_goes(
    fs: Ext4V,
    path: Seq<char>,
    root: InodeV,
    n: nat,
    m: nat,
    way: Seq<InodeV>,
    open: Seq<Seq<char>>,
    nested: nat,
)
    requires
        walk(fs, path, root, n, open, nested) is Ok,
        n + m <= components(path).len(),
        goes(
            fs,
            walk(fs, path, root, n, open, nested)->Ok_0.at,
            components(path).subrange(n as int, (n + m) as int),
            way,
        ),
        n + m < components(path).len() && m > 0 ==> way[m as int].kind() != FileType::Symlink,
    ensures
        walk(fs, path, root, n + m, open, nested) == Ok::<Walk, Fault>(
            Walk {
                at: way[m as int],
                walked: walk(fs, path, root, n, open, nested)->Ok_0.walked + components(
                    path,
                ).subrange(n as int, (n + m) as int),
            },
        ),
    decreases m,
{
    let cs = components(path);
    let s = cs.subrange(n as int, (n + m) as int);
    let w0 = walk(fs, path, root, n, open, nested)->Ok_0;
    if m == 0 {
        assert(w0.walked + s =~= w0.walked);
        assert(w0 == (Walk { at: way[0], walked: w0.walked + s }));
    } else {
        let k = (m - 1) as nat;
        let t = cs.subrange(n as int, (n + k) as int);
        let front = way.take(m as int);
        assert(goes(fs, w0.at, t, front)) by {
            assert forall|i: int| 0 <= i < t.len() implies #[trigger] t[i] != ".."@ && enters(
                fs,
                front[i],
                t[i],
                front[i + 1],
            ) by {
                assert(t[i] == s[i]);
            }
        }
        assert(s[k as int] == cs[(n + k) as int]);
        assert(enters(fs, way[k as int], s[k as int], way[m as int]));
        walk_goes(fs, path, root, n, k, front, open, nested);
        entering(fs, way[k as int], cs[(n + k) as int], way[m as int], path);
        let next = Walk { at: way[m as int], walked: (w0.walked + t).push(cs[(n + k) as int]) };
        assert(chased_or_last(fs, path, n + m, next, open, nested)) by {
            reveal(walk);
            reveal(chased);
            reveal(resolved);
        }
        assert((n + m - 1) as nat == n + k);
        assert(walk(fs, path, root, n + m, open, nested) == Ok::<Walk, Fault>(next)) by {
            reveal(walk);
            reveal(chased);
            reveal(resolved);
        }
        assert(w0.walked + s =~= (w0.walked + t).push(cs[(n + k) as int]));
    }
}

proof fn walk_starts(fs: Ext4V, path: Seq<char>, root: InodeV, open: Seq<Seq<char>>, nested: nat)
    ensures
        walk(fs, path, root, 0, open, nested) == Ok::<Walk, Fault>(
            Walk { at: root, walked: Seq::empty() },
        ),
{
    reveal(walk);
    reveal(resolved);
    reveal(chased);
}

/// The walk along the first `k` names from the root.
proof fn walk_from_root(
    fs: Ext4V,
    path: Seq<char>,
    root: InodeV,
    k: nat,
    way: Seq<InodeV>,
    open: Seq<Seq<char>>,
    nested: nat,
)
    requires
        k <= components(path).len(),
        goes(fs, root, components(path).take(k as int), way),
        k < components(path).len() && k > 0 ==> way[k as int].kind() != FileType::Symlink,
    ensures
        walk(fs, path, root, k, open, nested) == Ok::<Walk, Fault>(
            Walk { at: way[k as int], walked: components(path).take(k as int) },
        ),
{
    let cs = components(path);
    walk_starts(fs, path, root, open, nested);
    assert(cs.subrange(0, k as int) =~= cs.take(k as int));
    walk_goes(fs, path, root, 0, k, way, open, nested);
    assert(Seq::<Seq<char>>::empty() + cs.take(k as int) =~= cs.take(k as int));
}

/// A path is resolved by a walk along all of its names.
proof fn resolved_walks(fs: Ext4V, path: Seq<char>, root: InodeV, open: Seq<Seq<char>>, nested: nat)
    requires
        inode_of(fs, 2) == Ok::<InodeV, Fault>(root),
        !open.contains(path),
    ensures
        resolved(fs, path, open, nested) == match walk(
            fs,
            path,
            root,
            components(path).len(),
            open.push(path),
            nested,
        ) {
            Err(e) => Err::<InodeV, Fault>(e),
            Ok(w) => Ok::<InodeV, Fault>(w.at),
        },
{
    reveal(resolved);
    reveal(walk);
    reveal(chased);
}

proof fn resolved_goes(
    fs: Ext4V,
    path: Seq<char>,
    root: InodeV,
    way: Seq<InodeV>,
    open: Seq<Seq<char>>,
    nested: nat,
)
    requires
        inode_of(fs, 2) == Ok::<InodeV, Fault>(root),
        goes(fs, root, components(path), way),
        !open.contains(path),
    ensures
        resolved(fs, path, open, nested) == Ok::<InodeV, Fault>(way.last()),
{
    let n = components(path).len();
    assert(components(path).take(n as int) =~= components(path));
    walk_from_root(fs, path, root, n, way, open.push(path), nested);
    resolved_walks(fs, path, root, open, nested);
}

/// A path leads from inode 2 on, name by name, to what the directories on the way
/// list; what stands at the end is found, a link too where links are not followed.
pub proof fn path_leads_down(fs: Ext4V, path: Seq<char>, root: InodeV, way: Seq<InodeV>)
    requires
        inode_of(fs, 2) == Ok::<InodeV, Fault>(root),
        goes(fs, root, components(path), way),
    ensures
        found_no_follow(fs, path) == Ok::<InodeV, Fault>(way.last()),
        way.last().kind() != FileType::Symlink ==> found(fs, path) == Ok::<InodeV, Fault>(
            way.last(),
        ),
{
    resolved_goes(fs, path, root, way, Seq::empty(), u64::MAX as nat);
}

proof fn walk_fails(
    fs: Ext4V,
    path: Seq<char>,
    root: InodeV,
    n: nat,
    m: nat,
    open: Seq<Seq<char>>,
    nested: nat,
    e: Fault,
)
    requires
        n <= m,
        walk(fs, path, root, n, open, nested) == Err::<Walk, Fault>(e),
    ensures
        walk(fs, path, root, m, open, nested) == Err::<Walk, Fault>(e),
    decreases m,
{
    if n < m {
        walk_fails(fs, path, root, n, (m - 1) as nat, open, nested, e);
        reveal(walk);
        reveal(resolved);
        reveal(chased);
    }
}

/// Where a directory on the way does not list the next name, nothing is found, and
/// the error names the path.
pub proof fn unlisted_is_not_found(
    fs: Ext4V,
    path: Seq<char>,
    root: InodeV,
    way: Seq<InodeV>,
    k: nat,
)
    requires
        inode_of(fs, 2) == Ok::<InodeV, Fault>(root),
        k < components(path).len(),
        goes(fs, root, components(path).take(k as int), way),
        way.last().kind() == FileType::Directory,
        components(path)[k as int] != ".."@,
        raw_entries(fs, way.last()) matches Ok(es) && forall|j: int|
            0 <= j < es.len() ==> lossy_text((#[trigger] es[j]).name) != components(path)[k as int],
    ensures
        found_no_follow(fs, path) == Err::<InodeV, Fault>(Fault::NotFound(path)),
        found(fs, path) == Err::<InodeV, Fault>(Fault::NotFound(path)),
{
    let nested = u64::MAX as nat;
    let open = Seq::<Seq<char>>::empty().push(path);
    let c = components(path)[k as int];
    walk_from_root(fs, path, root, k, way, open, nested);
    let es = raw_entries(fs, way.last())->Ok_0;
    first_idx_is(es, named(c), es.len() as int);
    assert(walk(fs, path, root, k + 1, open, nested) == Err::<Walk, Fault>(
        Fault::NotFound(path),
    )) by {
        reveal(walk);
        reveal(resolved);
        reveal(chased);
    }
    walk_fails(
        fs,
        path,
        root,
        k + 1,
        components(path).len(),
        open,
        nested,
        Fault::NotFound(path),
    );
    resolved_walks(fs, path, root, Seq::empty(), nested);
}

/// Nothing is found below what is no directory, and the error says what is none.
pub proof fn nothing_below_a_file(
    fs: Ext4V,
    path: Seq<char>,
    root: InodeV,
    way: Seq<InodeV>,
    k: nat,
)
    requires
        inode_of(fs, 2) == Ok::<InodeV, Fault>(root),
        k < components(path).len(),
        goes(fs, root, components(path).take(k as int), way),
        way.last().kind() != FileType::Directory,
        way.last().kind() != FileType::Symlink,
        components(path)[k as int] != ".."@,
    ensures
        found(fs, path) == Err::<InodeV, Fault>(
            Fault::NotADirectory("/"@ + joined(components(path).take(k as int))),
        ),
{
    let nested = u64::MAX as nat;
    let open = Seq::<Seq<char>>::empty().push(path);
    let e = Fault::NotADirectory("/"@ + joined(components(path).take(k as int)));
    walk_from_root(fs, path, root, k, way, open, nested);
    assert(walk(fs, path, root, k + 1, open, nested) == Err::<Walk, Fault>(e)) by {
        reveal(walk);
        reveal(resolved);
        reveal(chased);
    }
    walk_fails(fs, path, root, k + 1, components(path).len(), open, nested, e);
    resolved_walks(fs, path, root, Seq::empty(), nested);
}

proof fn slash_text()
    ensures
        "/"@ == seq!['/'],
{
    reveal_strlit("/");
    assert("/"@ =~= seq!['/']);
}

proof fn joined_divides(ps: Seq<Seq<char>>)
    requires
        forall|i: int| 0 <= i < ps.len() ==> is_step(#[trigger] ps[i]),
    ensures
        components(joined(ps)) == ps,
    decreases ps.len(),
{
    slash_text();
    if ps.len() == 0 {
        name_alone(Seq::empty());
        assert(ps =~= Seq::empty());
    } else if ps.len() == 1 {
        assert(is_step(ps[0]));
        name_alone(ps[0]);
        assert(ps =~= seq![ps[0]]);
    } else {
        let front = ps.drop_last();
        joined_divides(front);
        slash_joins(joined(front), ps.last());
        assert(is_step(ps[ps.len() - 1]));
        name_alone(ps.last());
        assert(front + seq![ps.last()] =~= ps);
    }
}

/// Names with slashes in front of them divide into those names.
pub proof fn absolute_divides(ps: Seq<Seq<char>>)
    requires
        forall|i: int| 0 <= i < ps.len() ==> is_step(#[trigger] ps[i]),
    ensures
        components(absolute(ps)) == ps,
{
    slash_text();
    joined_divides(ps);
    name_alone(Seq::empty());
    slash_joins(Seq::empty(), joined(ps));
    assert(Seq::<char>::empty() + seq!['/'] + joined(ps) =~= absolute(ps));
    assert(Seq::<Seq<char>>::empty() + ps =~= ps);
}

/// The first names of a path divide back.
proof fn front_divides(path: Seq<char>, k: int)
    requires
        0 <= k <= components(path).len(),
    ensures
        components(absolute(components(path).take(k))) == components(path).take(k),
{
    components_are_steps(path);
    let ps = components(path).take(k);
    assert forall|i: int| 0 <= i < ps.len() implies is_step(#[trigger] ps[i]) by {
        assert(ps[i] == components(path)[i]);
    }
    absolute_divides(ps);
}

/// A link at the end of a path is followed where links are: from the root if its
/// target begins with a slash, else from the directory that the link stands in.
pub proof fn last_link_is_followed(
    fs: Ext4V,
    dir: Seq<char>,
    name: Seq<char>,
    root: InodeV,
    way: Seq<InodeV>,
    target: Seq<char>,
    on: Seq<InodeV>,
)
    requires
        inode_of(fs, 2) == Ok::<InodeV, Fault>(root),
        is_step(name),
        goes(fs, root, components(dir).push(name), way),
        way.last().kind() == FileType::Symlink,
        link_text(fs, way.last()) == Ok::<Seq<char>, Fault>(target),
        target.len() > 0,
        target[0] == '/' ==> goes(fs, root, components(target), on),
        target[0] != '/' ==> goes(fs, way[way.len() - 2], components(target), on),
    ensures
        found(fs, dir + seq!['/'] + name) == Ok::<InodeV, Fault>(on.last()),
        link_at(fs, dir + seq!['/'] + name) == Ok::<Seq<char>, Fault>(target),
{
    let path = dir + seq!['/'] + name;
    slash_text();
    slash_joins(dir, name);
    name_alone(name);
    assert(components(dir) + seq![name] =~= components(dir).push(name));
    path_leads_down(fs, path, root, way);
    if target[0] == '/' {
        path_leads_down(fs, target, root, on);
    } else {
        last_slash_props(path);
        let n = dir.len() as int;
        assert(path[n] == '/');
        assert(last_slash(path) == n) by {
            let k = last_slash(path);
            if k > n {
                assert(path[k] == name[k - n - 1]);
            }
        }
        assert(parent_part(path) =~= dir);
        slash_joins(dir, target);
        let next = dir + seq!['/'] + target;
        let cs = components(dir).push(name);
        assert(cs.take(components(dir).len() as int) =~= components(dir));
        joined_ways(fs, root, cs, way, components(dir), components(target), on);
        let all = way.take(components(dir).len() as int) + on;
        path_leads_down(fs, next, root, all);
    }
}

/// Two ways, the second from where the first is after some names, make one.
proof fn joined_ways(
    fs: Ext4V,
    root: InodeV,
    cs: Seq<Seq<char>>,
    way: Seq<InodeV>,
    a: Seq<Seq<char>>,
    b: Seq<Seq<char>>,
    on: Seq<InodeV>,
)
    requires
        goes(fs, root, cs, way),
        a.len() <= cs.len(),
        cs.take(a.len() as int) == a,
        goes(fs, way[a.len() as int], b, on),
    ensures
        goes(fs, root, a + b, way.take(a.len() as int) + on),
{
    let n = a.len() as int;
    let all = way.take(n) + on;
    let s = a + b;
    assert forall|i: int| 0 <= i < s.len() implies #[trigger] s[i] != ".."@ && enters(
        fs,
        all[i],
        s[i],
        all[i + 1],
    ) by {
        if i < n {
            assert(s[i] == cs.take(n)[i]);
            assert(s[i] == cs[i]);
            assert(all[i + 1] == way[i + 1]);
        } else {
            assert(s[i] == b[i - n]);
            assert(all[i] == on[i - n]);
            assert(all[i + 1] == on[i - n + 1]);
        }
    }
}

/// A link on the way is followed, and the path goes on from where it leads: from
/// the root if its target begins with a slash, else from the directory that the
/// link stands in.
#[verifier::rlimit(60)]
pub proof fn link_on_the_way_is_followed(
    fs: Ext4V,
    path: Seq<char>,
    root: InodeV,
    way: Seq<InodeV>,
    k: nat,
    target: Seq<char>,
    on: Seq<InodeV>,
    rest: Seq<InodeV>,
)
    requires
        inode_of(fs, 2) == Ok::<InodeV, Fault>(root),
        0 < k < components(path).len(),
        goes(fs, root, components(path).take(k as int), way),
        way.last().kind() == FileType::Symlink,
        link_text(fs, way.last()) == Ok::<Seq<char>, Fault>(target),
        target.len() > 0,
        target[0] == '/' ==> goes(fs, root, components(target), on),
        target[0] != '/' ==> goes(fs, way[k - 1], components(target), on),
        on.last().kind() != FileType::Symlink,
        goes(fs, on.last(), components(path).skip(k as int), rest),
    ensures
        found_no_follow(fs, path) == Ok::<InodeV, Fault>(rest.last()),
{
    let nested = u64::MAX as nat;
    let cs = components(path);
    let open = Seq::<Seq<char>>::empty().push(path);
    let up = cs.take(k - 1);
    let next = if target[0] == '/' {
        target
    } else {
        absolute(up) + "/"@ + target
    };
    slash_text();
    let before = cs.take(k as int);
    assert(before.drop_last() =~= up);
    let front = way.take(k as int);
    assert(goes(fs, root, up, front)) by {
        assert forall|i: int| 0 <= i < up.len() implies #[trigger] up[i] != ".."@ && enters(
            fs,
            front[i],
            up[i],
            front[i + 1],
        ) by {
            assert(up[i] == before[i]);
        }
    }
    assert(before[k - 1] != ".."@ && enters(fs, way[k - 1], before[k - 1], way[k as int]));
    // The way to where the link leads, from the root.
    let all = if target[0] == '/' {
        on
    } else {
        front.take(k - 1) + on
    };
    if target[0] != '/' {
        front_divides(path, k - 1);
        slash_joins(absolute(up), target);
        assert(up.take(up.len() as int) =~= up);
        joined_ways(fs, root, up, front, up, components(target), on);
    }
    assert(goes(fs, root, components(next), all));
    assert(all.last() == on.last());
    // It is not the path itself: that one leads to the link.
    assert(next != path) by {
        if next == path {
            assert(before.take(k as int) =~= before);
            same_way(fs, root, cs, all, before, way, k as int);
            assert(enters(fs, all[k as int], cs[k as int], all[k as int + 1]));
        }
    }
    assert(!open.contains(next)) by {
        if open.contains(next) {
            let i = choose|i: int| 0 <= i < open.len() && open[i] == next;
            assert(open[i] == path);
        }
    }
    resolved_goes(fs, next, root, all, open, (nested - 1) as nat);
    walk_from_root(fs, path, root, (k - 1) as nat, front, open, nested);
    entering(fs, way[k - 1], cs[k - 1], way[k as int], path);
    let w = Walk { at: way[k as int], walked: up.push(cs[k - 1]) };
    assert(popped(w.walked) =~= up);
    let there = Walk { at: on.last(), walked: components(next) };
    assert(chased(fs, path, w, 8, open, nested) == Ok::<Walk, Fault>(there)) by {
        assert(chased(fs, path, there, 7, open, nested) == Ok::<Walk, Fault>(there)) by {
            reveal(chased);
            reveal(walk);
            reveal(resolved);
        }
        reveal(chased);
        reveal(walk);
        reveal(resolved);
    }
    assert(walk(fs, path, root, k, open, nested) == Ok::<Walk, Fault>(there)) by {
        reveal(chased);
        reveal(walk);
        reveal(resolved);
    }
    let m = (cs.len() - k) as nat;
    assert(cs.subrange(k as int, (k + m) as int) =~= cs.skip(k as int));
    walk_goes(fs, path, root, k, m, rest, open, nested);
    resolved_walks(fs, path, root, Seq::empty(), nested);
}

/// Two ways along the same names meet the same files.
proof fn same_way(
    fs: Ext4V,
    root: InodeV,
    cs: Seq<Seq<char>>,
    a: Seq<InodeV>,
    ds: Seq<Seq<char>>,
    b: Seq<InodeV>,
    k: int,
)
    requires
        goes(fs, root, cs, a),
        goes(fs, root, ds, b),
        0 <= k <= cs.len(),
        k <= ds.len(),
        cs.take(k) == ds.take(k),
    ensures
        a[k] == b[k],
    decreases k,
{
    if k > 0 {
        assert(cs.take(k - 1) =~= cs.take(k).take(k - 1));
        assert(ds.take(k - 1) =~= ds.take(k).take(k - 1));
        same_way(fs, root, cs, a, ds, b, k - 1);
        assert(cs[k - 1] == cs.take(k)[k - 1]);
        assert(ds[k - 1] == ds.take(k)[k - 1]);
        entering(fs, a[k - 1], cs[k - 1], a[k], Seq::empty());
        entering(fs, b[k - 1], ds[k - 1], b[k], Seq::empty());
    }
}

/// `..` leads back to the directory that the last name was listed in, and from the
/// root directory to itself.
pub proof fn up_leads_back(
    fs: Ext4V,
    path: Seq<char>,
    root: InodeV,
    way: Seq<InodeV>,
    k: nat,
    rest: Seq<InodeV>,
)
    requires
        inode_of(fs, 2) == Ok::<InodeV, Fault>(root),
        k < components(path).len(),
        goes(fs, root, components(path).take(k as int), way),
        way.last().kind() != FileType::Symlink,
        components(path)[k as int] == ".."@,
        goes(
            fs,
            if k == 0 {
                root
            } else {
                way[k - 1]
            },
            components(path).skip(k as int + 1),
            rest,
        ),
    ensures
        found_no_follow(fs, path) == Ok::<InodeV, Fault>(rest.last()),
{
    let nested = u64::MAX as nat;
    let cs = components(path);
    let open = Seq::<Seq<char>>::empty().push(path);
    let before = cs.take(k as int);
    let up = popped(before);
    let j = if k == 0 {
        0
    } else {
        k - 1
    };
    assert(up =~= cs.take(j));
    let front = way.take(j + 1);
    assert(goes(fs, root, up, front)) by {
        assert forall|i: int| 0 <= i < up.len() implies #[trigger] up[i] != ".."@ && enters(
            fs,
            front[i],
            up[i],
            front[i + 1],
        ) by {
            assert(up[i] == before[i]);
        }
    }
    front_divides(path, j);
    let next = absolute(up);
    assert(next != path) by {
        if next == path {
            assert(cs.len() == j);
        }
    }
    assert(!open.contains(next)) by {
        if open.contains(next) {
            let i = choose|i: int| 0 <= i < open.len() && open[i] == next;
            assert(open[i] == path);
        }
    }
    resolved_goes(fs, next, root, front, open, (nested - 1) as nat);
    walk_from_root(fs, path, root, k, way, open, nested);
    assert(walk(fs, path, root, k + 1, open, nested) == Ok::<Walk, Fault>(
        Walk { at: front.last(), walked: up },
    )) by {
        reveal(walk);
        reveal(chased);
        reveal(resolved);
    }
    let m = (cs.len() - k - 1) as nat;
    assert(cs.subrange(k as int + 1, (k + 1 + m) as int) =~= cs.skip(k as int + 1));
    walk_goes(fs, path, root, k + 1, m, rest, open, nested);
    resolved_walks(fs, path, root, Seq::empty(), nested);
}

/// Links in a row: each but the last file is a link whose target, a path from the
/// root other than `path`, leads to the next.
pub open spec fn in_a_row(
    fs: Ext4V,
    path: Seq<char>,
    root: InodeV,
    ends: Seq<InodeV>,
    targets: Seq<Seq<char>>,
    ways: Seq<Seq<InodeV>>,
) -> bool {
    &&& ends.len() == targets.len() + 1
    &&& ways.len() == targets.len()
    &&& forall|i: int|
        0 <= i < targets.len() ==> {
            &&& ends[i].kind() == FileType::Symlink
            &&& link_text(fs, ends[i]) == Ok::<Seq<char>, Fault>(targets[i])
            &&& (#[trigger] targets[i]).len() > 0 && targets[i][0] == '/' && targets[i] != path
            &&& goes(fs, root, components(targets[i]), ways[i])
            &&& ways[i].last() == ends[i + 1]
        }
}

proof fn row_is_chased(
    fs: Ext4V,
    path: Seq<char>,
    root: InodeV,
    ends: Seq<InodeV>,
    targets: Seq<Seq<char>>,
    ways: Seq<Seq<InodeV>>,
    i: int,
    walked: Seq<Seq<char>>,
    left: nat,
    nested: nat,
)
    requires
        inode_of(fs, 2) == Ok::<InodeV, Fault>(root),
        in_a_row(fs, path, root, ends, targets, ways),
        ends.last().kind() != FileType::Symlink,
        0 <= i <= targets.len(),
        nested > 0,
    ensures
        ({
            let w = Walk { at: ends[i], walked };
            let open = Seq::<Seq<char>>::empty().push(path);
            &&& targets.len() - i <= left ==> (chased(fs, path, w, left, open, nested) matches Ok(v)
                && v.at == ends.last())
            &&& targets.len() - i > left ==> chased(fs, path, w, left, open, nested) == Err::<
                Walk,
                Fault,
            >(Fault::SymlinkLoop(path))
        }),
    decreases targets.len() - i,
{
    let w = Walk { at: ends[i], walked };
    let open = Seq::<Seq<char>>::empty().push(path);
    if i < targets.len() && left > 0 {
        let t = targets[i];
        row_is_chased(
            fs,
            path,
            root,
            ends,
            targets,
            ways,
            i + 1,
            components(t),
            (left - 1) as nat,
            nested,
        );
        assert(!open.contains(t)) by {
            if open.contains(t) {
                let j = choose|j: int| 0 <= j < open.len() && open[j] == t;
                assert(open[j] == path);
            }
        }
        resolved_goes(fs, t, root, ways[i], open, (nested - 1) as nat);
    }
    if i < targets.len() {
        assert(targets[i].len() > 0);
    }
    reveal(chased);
    reveal(walk);
    reveal(resolved);
}

/// Links on the way that lead to links are followed, eight in a row; where there
/// are more, the path is refused as a loop.
pub proof fn eight_links_in_a_row(
    fs: Ext4V,
    path: Seq<char>,
    root: InodeV,
    way: Seq<InodeV>,
    k: nat,
    ends: Seq<InodeV>,
    targets: Seq<Seq<char>>,
    ways: Seq<Seq<InodeV>>,
    rest: Seq<InodeV>,
)
    requires
        inode_of(fs, 2) == Ok::<InodeV, Fault>(root),
        0 < k < components(path).len(),
        goes(fs, root, components(path).take(k as int), way),
        in_a_row(fs, path, root, ends, targets, ways),
        ends[0] == way.last(),
        ends.last().kind() != FileType::Symlink,
        goes(fs, ends.last(), components(path).skip(k as int), rest),
    ensures
        targets.len() <= 8 ==> found_no_follow(fs, path) == Ok::<InodeV, Fault>(rest.last()),
        targets.len() > 8 ==> found_no_follow(fs, path) == Err::<InodeV, Fault>(
            Fault::SymlinkLoop(path),
        ),
{
    let nested = u64::MAX as nat;
    let cs = components(path);
    let open = Seq::<Seq<char>>::empty().push(path);
    let up = cs.take(k - 1);
    let before = cs.take(k as int);
    let front = way.take(k as int);
    assert(goes(fs, root, up, front)) by {
        assert forall|i: int| 0 <= i < up.len() implies #[trigger] up[i] != ".."@ && enters(
            fs,
            front[i],
            up[i],
            front[i + 1],
        ) by {
            assert(up[i] == before[i]);
        }
    }
    assert(before[k - 1] != ".."@ && enters(fs, way[k - 1], before[k - 1], way[k as int]));
    walk_from_root(fs, path, root, (k - 1) as nat, front, open, nested);
    entering(fs, way[k - 1], cs[k - 1], way[k as int], path);
    let walked = up.push(cs[k - 1]);
    row_is_chased(fs, path, root, ends, targets, ways, 0, walked, 8, nested);
    assert(walk(fs, path, root, k, open, nested) == chased(
        fs,
        path,
        Walk { at: ends[0], walked },
        8,
        open,
        nested,
    )) by {
        reveal(chased);
        reveal(walk);
        reveal(resolved);
    }
    resolved_walks(fs, path, root, Seq::empty(), nested);
    if targets.len() <= 8 {
        let m = (cs.len() - k) as nat;
        assert(cs.subrange(k as int, (k + m) as int) =~= cs.skip(k as int));
        walk_goes(fs, path, root, k, m, rest, open, nested);
    } else {
        walk_fails(fs, path, root, k, cs.len(), open, nested, Fault::SymlinkLoop(path));
    }
}

/// A target of fewer than 60 bytes is kept in the inode's own area; a longer one
/// is what the file holds.
pub proof fn target_is_kept(fs: Ext4V, link: InodeV)
    requires
        link.size <= usize::MAX,
    ensures
        link.size < 60 ==> link_text(fs, link) == Ok::<Seq<char>, Fault>(
            lossy_text(link.area.take(link.size as int)),
        ),
        link.size >= 60 ==> (content(fs, link, 0, link.size as int) matches Ok(d) ==> link_text(
            fs,
            link,
        ) == Ok::<Seq<char>, Fault>(lossy_text(d))),
{
}

/// What is read at a path is what the file there holds, from its first byte to
/// its last; a directory is not read.
pub proof fn file_is_read_whole(fs: Ext4V, path: Seq<char>, i: InodeV)
    requires
        found(fs, path) == Ok::<InodeV, Fault>(i),
        i.size <= usize::MAX,
    ensures
        i.kind() == FileType::Directory ==> file_at(fs, path) == Err::<Seq<u8>, Fault>(
            Fault::IsADirectory(path),
        ),
        i.kind() != FileType::Directory ==> file_at(fs, path) == content(
            fs,
            i,
            0,
            i.size as int,
        ),
{
}

} // verus!
