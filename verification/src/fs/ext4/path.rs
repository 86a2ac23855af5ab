//! Resolving paths.

use vstd::array::array_as_slice;
use vstd::prelude::*;

use crate::bytes::copy_range;
use crate::device::ReadAt;
use crate::error::{text, tracks, Fault, LuksError, Outcome, Result};
use crate::fs::ext4::data::content;
use crate::fs::ext4::dir::{lists_dir, raw_entries, raws_of, RawEntry, RawV};
use crate::fs::lossy::{lossy_text, text_of_bytes};
use crate::fs::ext4::volume::{inode_of, info_of, Ext4, Ext4V, Inode, InodeV, ROOT_INODE};
use crate::fs::path::{components, parent_part, split_last, split_path, texts};
use crate::fs::{DirEntry, FileInfo, FileType};
use crate::seqs::{first_idx, first_idx_is};
use crate::text::{join, join3, text_eq};

verus! {

/// How many links are followed in a row.
pub const MAX_SYMLINK_DEPTH: u32 = 8;
/// How deep the resolution of one path may lead into that of others. No device
/// holds so many links.
pub const MAX_NESTED_PATHS: u64 = u64::MAX;

/// Components with slashes between them.
pub open spec fn joined(ps: Seq<Seq<char>>) -> Seq<char>
    decreases ps.len(),
{
    if ps.len() == 0 {
        Seq::empty()
    } else if ps.len() == 1 {
        ps[0]
    } else {
        joined(ps.drop_last()) + "/"@ + ps.last()
    }
}

/// Components as an absolute path.
pub open spec fn absolute(ps: Seq<Seq<char>>) -> Seq<char> {
    "/"@ + joined(ps)
}

/// Whether a path is absolute.
pub open spec fn is_absolute(p: Seq<char>) -> bool {
    p.len() > 0 && p[0] == '/'
}

/// What a link points at. A short target is kept in the inode itself.
pub open spec fn link_text(fs: Ext4V, inode: InodeV) -> Outcome<Seq<char>> {
    if inode.size < 60 {
        Ok(lossy_text(inode.area.take(inode.size as int)))
    } else if inode.size > usize::MAX {
        Err(Fault::OutOfBounds)
    } else {
        match content(fs, inode, 0, inode.size as int) {
            Err(e) => Err(e),
            Ok(d) => Ok(lossy_text(d)),
        }
    }
}

/// Entries with this name.
pub open spec fn named(name: Seq<char>) -> spec_fn(RawV) -> bool {
    |e: RawV| lossy_text(e.name) == name
}

/// The file called `name` in directory `dir`, on the way along `path`.
pub open spec fn child_of(fs: Ext4V, dir: InodeV, name: Seq<char>, path: Seq<char>) -> Outcome<InodeV> {
    match raw_entries(fs, dir) {
        Err(e) => Err(e),
        Ok(es) => {
            let i = first_idx(es, named(name));
            if i < es.len() {
                inode_of(fs, es[i].inode)
            } else {
                Err(Fault::NotFound(path))
            }
        },
    }
}

/// Where a walk along a path has come to: the file, and the components that
/// lead there.
pub struct Walk {
    pub at: InodeV,
    pub walked: Seq<Seq<char>>,
}

/// `s` without its last element, if it has one.
pub open spec fn popped(s: Seq<Seq<char>>) -> Seq<Seq<char>> {
    if s.len() == 0 {
        s
    } else {
        s.drop_last()
    }
}

/// The file at `path`. Links on the way are followed, a link at the end is not.
/// `open` are the paths whose resolution has led to this one: a path that leads
/// back to itself has no end. `nested` bounds how deep other paths are resolved
/// on the way.
#[verifier::opaque]
pub open spec fn resolved(fs: Ext4V, path: Seq<char>, open: Seq<Seq<char>>, nested: nat) -> Outcome<
    InodeV,
>
    decreases nested, 2nat, 0nat,
{
    if open.contains(path) {
        Err(Fault::SymlinkLoop(path))
    } else {
        match inode_of(fs, ROOT_INODE) {
            Err(e) => Err(e),
            Ok(root) => match walk(
                fs,
                path,
                root,
                components(path).len(),
                open.push(path),
                nested,
            ) {
                Err(e) => Err(e),
                Ok(w) => Ok(w.at),
            },
        }
    }
}

/// The walk along the first `n` components of `path`.
#[verifier::opaque]
pub open spec fn walk(
    fs: Ext4V,
    path: Seq<char>,
    root: InodeV,
    n: nat,
    open: Seq<Seq<char>>,
    nested: nat,
) -> Outcome<Walk>
    decreases nested, 1nat, n,
{
    let cs = components(path);
    if n == 0 {
        Ok(Walk { at: root, walked: Seq::empty() })
    } else {
        match walk(fs, path, root, (n - 1) as nat, open, nested) {
            Err(e) => Err(e),
            Ok(w) => {
                let c = cs[n - 1];
                if c == ".."@ {
                    if nested == 0 {
                        Err(Fault::SymlinkLoop(path))
                    } else {
                        let up = popped(w.walked);
                        match resolved(fs, absolute(up), open, (nested - 1) as nat) {
                            Err(e) => Err(e),
                            Ok(at) => Ok(Walk { at, walked: up }),
                        }
                    }
                } else if w.at.kind() != FileType::Directory {
                    Err(Fault::NotADirectory(absolute(w.walked)))
                } else {
                    match child_of(fs, w.at, c, path) {
                        Err(e) => Err(e),
                        Ok(at) => {
                            let next = Walk { at, walked: w.walked.push(c) };
                            if n < cs.len() {
                                chased(fs, path, next, MAX_SYMLINK_DEPTH as nat, open, nested)
                            } else {
                                Ok(next)
                            }
                        },
                    }
                }
            },
        }
    }
}

/// Follow links from `w` on until something else is met, `left` links at most.
#[verifier::opaque]
pub open spec fn chased(
    fs: Ext4V,
    path: Seq<char>,
    w: Walk,
    left: nat,
    open: Seq<Seq<char>>,
    nested: nat,
) -> Outcome<Walk>
    decreases nested, 0nat, left,
{
    if w.at.kind() != FileType::Symlink {
        Ok(w)
    } else if left == 0 || nested == 0 {
        Err(Fault::SymlinkLoop(path))
    } else {
        match link_text(fs, w.at) {
            Err(e) => Err(e),
            Ok(target) => {
                let next = if is_absolute(target) {
                    target
                } else {
                    absolute(popped(w.walked)) + "/"@ + target
                };
                match resolved(fs, next, open, (nested - 1) as nat) {
                    Err(e) => Err(e),
                    Ok(at) => chased(
                        fs,
                        path,
                        Walk { at, walked: components(next) },
                        (left - 1) as nat,
                        open,
                        nested,
                    ),
                }
            },
        }
    }
}

/// The file at `path`, with a link at the end left alone.
pub open spec fn found_no_follow(fs: Ext4V, path: Seq<char>) -> Outcome<InodeV> {
    resolved(fs, path, Seq::empty(), MAX_NESTED_PATHS as nat)
}

/// The file at `path`, with a link at the end followed once.
pub open spec fn found(fs: Ext4V, path: Seq<char>) -> Outcome<InodeV> {
    match found_no_follow(fs, path) {
        Err(e) => Err(e),
        Ok(i) => if i.kind() != FileType::Symlink {
            Ok(i)
        } else {
            match link_text(fs, i) {
                Err(e) => Err(e),
                Ok(target) => found_no_follow(
                    fs,
                    if is_absolute(target) {
                        target
                    } else {
                        parent_part(path) + "/"@ + target
                    },
                ),
            }
        },
    }
}

/// What the link at `path` points at.
pub open spec fn link_at(fs: Ext4V, path: Seq<char>) -> Outcome<Seq<char>> {
    match found_no_follow(fs, path) {
        Err(e) => Err(e),
        Ok(i) => if i.kind() != FileType::Symlink {
            Err(Fault::NotFound(path + " is not a symlink"@))
        } else {
            link_text(fs, i)
        },
    }
}

/// The contents of the file at `path`.
pub open spec fn file_at(fs: Ext4V, path: Seq<char>) -> Outcome<Seq<u8>> {
    match found(fs, path) {
        Err(e) => Err(e),
        Ok(i) => if i.kind() == FileType::Directory {
            Err(Fault::IsADirectory(path))
        } else if i.size > usize::MAX {
            Err(Fault::OutOfBounds)
        } else {
            content(fs, i, 0, i.size as int)
        },
    }
}

/// The texts of owned strings.
pub open spec fn owned_texts(v: Seq<String>) -> Seq<Seq<char>> {
    v.map_values(|s: String| s@)
}

fn join_absolute(v: &Vec<String>) -> (r: String)
    ensures
        r@ == absolute(owned_texts(v@)),
{
    let ghost all = owned_texts(v@);
    let n: usize = v.len();
    if n == 0 {
        let r = text("/");
        assert(r@ =~= "/"@ + joined(all));
        return r;
    }
    let mut r = join("/", v[0].as_str());
    assert(all[0] == v@[0]@);
    assert(all.take(1)[0] == all[0]);
    assert(r@ =~= absolute(all.take(1)));
    let mut i: usize = 1;
    while i < n
        invariant
            1 <= i <= n,
            n == v@.len(),
            all == owned_texts(v@),
            r@ == absolute(all.take(i as int)),
        decreases n - i,
    {
        r.append("/");
        r.append(v[i].as_str());
        proof {
            let t = all.take(i + 1);
            assert(t.drop_last() =~= all.take(i as int));
            assert(t.last() == v@[i as int]@);
            assert("/"@ + (joined(all.take(i as int)) + "/"@ + t.last()) =~= ("/"@ + joined(
                all.take(i as int),
            )) + "/"@ + t.last());
        }
        i += 1;
    }
    assert(all.take(n as int) =~= all);
    r
}

fn own_parts(parts: &Vec<&str>) -> (r: Vec<String>)
    ensures
        owned_texts(r@) == texts(parts@),
{
    let ghost all = texts(parts@);
    let n: usize = parts.len();
    let mut v: Vec<String> = Vec::new();
    let mut i: usize = 0;
    assert(owned_texts(v@) =~= all.take(0));
    while i < n
        invariant
            i <= n,
            n == parts@.len(),
            all == texts(parts@),
            owned_texts(v@) == all.take(i as int),
        decreases n - i,
    {
        let s = text(parts[i]);
        let ghost before = v@;
        v.push(s);
        assert(owned_texts(v@) =~= owned_texts(before).push(s@));
        i += 1;
        assert(owned_texts(v@) =~= all.take(i as int));
    }
    assert(all.take(n as int) =~= all);
    v
}

fn starts_absolute(p: &str) -> (r: bool)
    ensures
        r == is_absolute(p@),
{
    p.unicode_len() > 0 && p.get_char(0) == '/'
}

fn find_raw(es: &Vec<RawEntry>, name: &str) -> (p: usize)
    ensures
        p == first_idx(raws_of(es@), named(name@)),
        p <= es@.len(),
{
    let ghost all = raws_of(es@);
    let ghost f = named(name@);
    let n: usize = es.len();
    let mut i: usize = 0;
    while i < n
        invariant
            i <= n,
            n == es@.len(),
            all == raws_of(es@),
            f == named(name@),
            forall|j: int| 0 <= j < i ==> !f(#[trigger] all[j]),
        decreases n - i,
    {
        assert(all[i as int] == es@[i as int]@);
        let t = text_of_bytes(es[i].name.as_slice());
        if text_eq(t.as_str(), name) {
            proof {
                first_idx_is(all, f, i as int);
            }
            return i;
        }
        i += 1;
    }
    proof {
        first_idx_is(all, f, n as int);
    }
    n
}

fn pop_last(v: &mut Vec<String>)
    ensures
        owned_texts(final(v)@) == popped(owned_texts(old(v)@)),
{
    let ghost before = v@;
    if v.len() > 0 {
        let _ = v.pop();
        assert(owned_texts(v@) =~= owned_texts(before).drop_last());
    }
}

/// Whether `p` is among the texts.
fn lists_text(v: &Vec<String>, p: &str) -> (r: bool)
    ensures
        r == owned_texts(v@).contains(p@),
{
    let ghost all = owned_texts(v@);
    let n: usize = v.len();
    let mut i: usize = 0;
    while i < n
        invariant
            i <= n,
            n == v@.len(),
            all == owned_texts(v@),
            forall|j: int| 0 <= j < i ==> #[trigger] all[j] != p@,
        decreases n - i,
    {
        assert(all[i as int] == v@[i as int]@);
        if text_eq(v[i].as_str(), p) {
            return true;
        }
        i += 1;
    }
    false
}

/// The texts with `p` behind them.
fn with_text(v: &Vec<String>, p: &str) -> (r: Vec<String>)
    ensures
        owned_texts(r@) == owned_texts(v@).push(p@),
{
    let ghost all = owned_texts(v@);
    let n: usize = v.len();
    let mut r: Vec<String> = Vec::new();
    let mut i: usize = 0;
    assert(owned_texts(r@) =~= all.take(0));
    while i < n
        invariant
            i <= n,
            n == v@.len(),
            all == owned_texts(v@),
            owned_texts(r@) == all.take(i as int),
        decreases n - i,
    {
        let s = text(v[i].as_str());
        let ghost before = r@;
        r.push(s);
        assert(owned_texts(r@) =~= owned_texts(before).push(s@));
        i += 1;
        assert(owned_texts(r@) =~= all.take(i as int));
    }
    let s = text(p);
    let ghost before = r@;
    r.push(s);
    assert(owned_texts(r@) =~= owned_texts(before).push(p@));
    assert(all.take(n as int) =~= all);
    r
}

proof fn walk_err(fs: Ext4V, path: Seq<char>, root: InodeV, n: nat, m: nat, open: Seq<Seq<char>>, nested: nat)
    requires
        n <= m,
        walk(fs, path, root, n, open, nested) is Err,
    ensures
        walk(fs, path, root, m, open, nested) is Err,
        walk(fs, path, root, m, open, nested)->Err_0 == walk(fs, path, root, n, open, nested)->Err_0,
    decreases m,
{
    if n < m {
        walk_err(fs, path, root, n, (m - 1) as nat, open, nested);
        reveal(walk);
        reveal(resolved);
        reveal(chased);
    }
}

impl<D: ReadAt> Ext4<D> {
    fn link_target(&self, inode: &Inode) -> (r: Result<String>)
        requires
            self@.sb.wf(),
        ensures
            tracks(self.steady(), r, link_text(self@, inode@)),
    {
        if inode.size < 60 {
            let raw = copy_range(array_as_slice(&inode.block_area), 0, inode.size as usize);
            assert(raw@ =~= inode@.area.take(inode@.size as int));
            return Ok(text_of_bytes(raw.as_slice()));
        }
        if inode.size > usize::MAX as u64 {
            return Err(LuksError::OutOfBounds);
        }
        let raw = self.read_part(inode, 0, inode.size as usize)?;
        Ok(text_of_bytes(raw.as_slice()))
    }

    fn enter(&self, dir: &Inode, name: &str, path: &str) -> (r: Result<Inode>)
        requires
            self@.sb.wf(),
        ensures
            tracks(self.steady(), r, child_of(self@, dir@, name@, path@)),
    {
        let es = self.list_raw(dir)?;
        let i: usize = find_raw(&es, name);
        if i < es.len() {
            assert(raws_of(es@)[i as int] == es@[i as int]@);
            self.read_inode(es[i].inode)
        } else {
            Err(LuksError::NotFound(text(path)))
        }
    }

    /// Follow links from `from` on until something else is met.
    fn chase(
        &self,
        path: &str,
        from: Inode,
        trail: Vec<String>,
        open: &Vec<String>,
        nested: u64,
    ) -> (r: Result<(Inode, Vec<String>)>)
        requires
            self@.sb.wf(),
        ensures
            match r {
                Ok(x) => chased(
                    self@,
                    path@,
                    Walk { at: from@, walked: owned_texts(trail@) },
                    MAX_SYMLINK_DEPTH as nat,
                    owned_texts(open@),
                    nested as nat,
                ) == Ok::<Walk, Fault>(Walk { at: x.0@, walked: owned_texts(x.1@) }),
                Err(e) => chased(
                    self@,
                    path@,
                    Walk { at: from@, walked: owned_texts(trail@) },
                    MAX_SYMLINK_DEPTH as nat,
                    owned_texts(open@),
                    nested as nat,
                ) == Err::<Walk, Fault>(e@) || (!self.steady() && e@ is Io),
            },
        decreases nested, 0nat,
    {
        let ghost want = chased(
            self@,
            path@,
            Walk { at: from@, walked: owned_texts(trail@) },
            MAX_SYMLINK_DEPTH as nat,
            owned_texts(open@),
            nested as nat,
        );
        let mut at = from;
        let mut walked = trail;
        let mut left: u32 = MAX_SYMLINK_DEPTH;
        while at.file_type() == FileType::Symlink
            invariant
                self@.sb.wf(),
                want == chased(
                    self@,
                    path@,
                    Walk { at: from@, walked: owned_texts(trail@) },
                    MAX_SYMLINK_DEPTH as nat,
                    owned_texts(open@),
                    nested as nat,
                ),
                want == chased(
                    self@,
                    path@,
                    Walk { at: at@, walked: owned_texts(walked@) },
                    left as nat,
                    owned_texts(open@),
                    nested as nat,
                ),
            decreases left,
        {
            reveal(chased);
            reveal(resolved);
            reveal(walk);
            if left == 0 || nested == 0 {
                return Err(LuksError::SymlinkLoop(text(path)));
            }
            let target = self.link_target(&at)?;
            let next = if starts_absolute(target.as_str()) {
                target
            } else {
                pop_last(&mut walked);
                let base = join_absolute(&walked);
                join3(base.as_str(), "/", target.as_str())
            };
            at = self.resolve_nested(next.as_str(), open, nested - 1)?;
            let parts = split_path(next.as_str());
            walked = own_parts(&parts);
            left -= 1;
        }
        proof {
            reveal(chased);
            reveal(resolved);
            reveal(walk);
        }
        Ok((at, walked))
    }

    fn resolve_nested(&self, path: &str, open: &Vec<String>, nested: u64) -> (r: Result<Inode>)
        requires
            self@.sb.wf(),
        ensures
            tracks(
                self.steady(),
                r,
                resolved(self@, path@, owned_texts(open@), nested as nat),
            ),
        decreases nested, 1nat,
    {
        let ghost want = resolved(self@, path@, owned_texts(open@), nested as nat);
        proof {
            reveal(resolved);
            reveal(walk);
            reveal(chased);
        }
        if lists_text(open, path) {
            return Err(LuksError::SymlinkLoop(text(path)));
        }
        let inner = with_text(open, path);
        let ghost ps = owned_texts(inner@);
        let first = self.read_inode(ROOT_INODE);
        let mut at = first?;
        let ghost root = at@;
        let parts = split_path(path);
        let ghost cs = components(path@);
        let n: usize = parts.len();
        let mut walked: Vec<String> = Vec::new();
        assert(owned_texts(walked@) =~= Seq::<Seq<char>>::empty());
        assert(walk(self@, path@, root, 0, ps, nested as nat) == Ok::<Walk, Fault>(
            Walk { at: root, walked: Seq::empty() },
        ));
        assert(want == match walk(self@, path@, root, cs.len(), ps, nested as nat) {
            Err(e) => Err::<InodeV, Fault>(e),
            Ok(w) => Ok(w.at),
        });
        let mut i: usize = 0;
        while i < n
            invariant
                i <= n,
                n == parts@.len(),
                cs == components(path@),
                cs == texts(parts@),
                self@.sb.wf(),
                want == resolved(self@, path@, owned_texts(open@), nested as nat),
                ps == owned_texts(inner@),
                want == match walk(self@, path@, root, cs.len(), ps, nested as nat) {
                    Err(e) => Err::<InodeV, Fault>(e),
                    Ok(w) => Ok(w.at),
                },
                walk(self@, path@, root, i as nat, ps, nested as nat) == Ok::<Walk, Fault>(
                    Walk { at: at@, walked: owned_texts(walked@) },
                ),
            decreases n - i,
        {
            let c = parts[i];
            proof {
                assert(cs[i as int] == c@);
                reveal(walk);
                reveal(resolved);
                reveal(chased);
                if walk(self@, path@, root, (i + 1) as nat, ps, nested as nat) is Err {
                    walk_err(self@, path@, root, (i + 1) as nat, n as nat, ps, nested as nat);
                }
            }
            if text_eq(c, "..") {
                if nested == 0 {
                    return Err(LuksError::SymlinkLoop(text(path)));
                }
                pop_last(&mut walked);
                let up = join_absolute(&walked);
                at = self.resolve_nested(up.as_str(), &inner, nested - 1)?;
            } else {
                if !at.file_type().is_dir() {
                    return Err(LuksError::NotADirectory(join_absolute(&walked)));
                }
                let child = self.enter(&at, c, path)?;
                let name = text(c);
                let ghost before = walked@;
                walked.push(name);
                assert(owned_texts(walked@) =~= owned_texts(before).push(c@));
                if i + 1 < n {
                    let (x, w) = self.chase(path, child, walked, &inner, nested)?;
                    at = x;
                    walked = w;
                } else {
                    at = child;
                }
            }
            i += 1;
        }
        Ok(at)
    }

    /// Find the file at `path`. Links on the way are followed, a link at the
    /// end is not.
    pub fn resolve_no_follow(&self, path: &str) -> (r: Result<Inode>)
        requires
            self@.sb.wf(),
        ensures
            tracks(self.steady(), r, found_no_follow(self@, path@)),
    {
        let none: Vec<String> = Vec::new();
        assert(owned_texts(none@) =~= Seq::<Seq<char>>::empty());
        self.resolve_nested(path, &none, MAX_NESTED_PATHS)
    }

    /// Find the file at `path`, with a link at the end followed.
    pub fn resolve(&self, path: &str) -> (r: Result<Inode>)
        requires
            self@.sb.wf(),
        ensures
            tracks(self.steady(), r, found(self@, path@)),
    {
        let i = self.resolve_no_follow(path)?;
        if i.file_type() != FileType::Symlink {
            return Ok(i);
        }
        let target = self.link_target(&i)?;
        if starts_absolute(target.as_str()) {
            self.resolve_no_follow(target.as_str())
        } else {
            let (parent, _) = split_last(path);
            let full = join3(parent, "/", target.as_str());
            self.resolve_no_follow(full.as_str())
        }
    }

    /// What the link at `path` points at.
    pub fn read_link(&self, path: &str) -> (r: Result<String>)
        requires
            self@.sb.wf(),
        ensures
            tracks(self.steady(), r, link_at(self@, path@)),
    {
        let i = self.resolve_no_follow(path)?;
        if i.file_type() != FileType::Symlink {
            return Err(LuksError::NotFound(join(path, " is not a symlink")));
        }
        self.link_target(&i)
    }

    /// What is known of the file at `path`.
    pub fn file_info(&self, path: &str) -> (r: Result<FileInfo>)
        requires
            self@.sb.wf(),
        ensures
            match r {
                Ok(x) => found(self@, path@) matches Ok(i) && x.size == i.size && x.mode
                    == i.mode as u32 && x.uid == i.uid && x.gid == i.gid && x.links
                    == i.links as u32 && x.file_type == i.kind() && x.atime == i.atime && x.mtime
                    == i.mtime && x.ctime == i.ctime && x == info_of(i),
                Err(e) => found(self@, path@) == Err::<InodeV, Fault>(e@) || (!self.steady() && e@
                    is Io),
            },
    {
        let i = self.resolve(path)?;
        Ok(i.info())
    }

    /// Read a whole file.
    pub fn read_file(&self, path: &str) -> (r: Result<Vec<u8>>)
        requires
            self@.sb.wf(),
        ensures
            tracks(self.steady(), r, file_at(self@, path@)),
    {
        let i = self.resolve(path)?;
        if i.file_type().is_dir() {
            return Err(LuksError::IsADirectory(text(path)));
        }
        if i.size > usize::MAX as u64 {
            return Err(LuksError::OutOfBounds);
        }
        self.read_part(&i, 0, i.size as usize)
    }

    /// List the directory at `path`; `.` and `..` are left out.
    pub fn list_dir(&self, path: &str) -> (r: Result<Vec<DirEntry>>)
        requires
            self@.sb.wf(),
        ensures
            match found(self@, path@) {
                Err(f) => r matches Err(e) && (e@ == f || (!self.steady() && e@ is Io)),
                Ok(i) => if i.kind() != FileType::Directory {
                    r matches Err(e) && (e@ == Fault::NotADirectory(path@) || (!self.steady() && e@
                        is Io))
                } else {
                    lists_dir(self@, self.steady(), i, r)
                },
            },
    {
        let i = self.resolve(path)?;
        if !i.file_type().is_dir() {
            return Err(LuksError::NotADirectory(text(path)));
        }
        self.list_inode(&i)
    }
}

} // verus!
