//! Finding files: inodes, directory entries and paths.

use vstd::prelude::*;

use crate::device::ReadAt;
use crate::error::{text, Fault, LuksError, Outcome, Result};
use crate::fs::btrfs::blocks::BlockMap;
use crate::fs::btrfs::crc32c::{hash_of_name, name_hash};
use crate::fs::btrfs::inode::{
    dir_entries, dir_items_of, find_name, has_name, parse_dir_entries, parse_inode, DirItem,
    DirItemV, Inode,
};
use crate::fs::btrfs::search::{
    collect_range, find_first, find_item, find_item_in_tree, finds, first_below, range_items, yields, MAX_DEPTH,
};
use crate::fs::btrfs::tree::{
    items_of, Item, Key, LeafItem, DIR_INDEX_KEY, DIR_ITEM_KEY, INODE_ITEM_KEY, ROOT_ITEM_KEY,
};
use crate::fs::btrfs::roots::root_of;
use crate::fs::btrfs::volume::{Btrfs, FsV, TreeRoot};
use crate::fs::btrfs::write::cow::agrees;
use crate::fs::btrfs::write::extent_tree::cap64;
use crate::fs::path::{components, split_path, texts};
use crate::fs::FileType;
use crate::seqs::first_idx;
use crate::text::{bytes_of, text_eq, utf8};

verus! {

/// The payload of the item with `key` in the tree at `root` on the device.
pub open spec fn disk_item(fs: FsV, root: u64, key: Key) -> Outcome<Option<Seq<u8>>> {
    find_item(fs, Map::empty(), root, key)
}

/// The items of type `item_type` of `objectid` in the tree at `root`.
pub open spec fn typed_items(fs: FsV, root: u64, objectid: u64, item_type: u8) -> Outcome<Seq<Item>> {
    range_items(
        fs,
        Map::empty(),
        root,
        Key { objectid, item_type, offset: 0 },
        Key { objectid, item_type, offset: u64::MAX },
    )
}

/// The key of the first item of type `item_type` of `objectid` in the tree at
/// `root`.
pub open spec fn first_typed(fs: FsV, root: u64, objectid: u64, item_type: u8) -> Outcome<
    Option<Key>,
> {
    first_below(
        fs,
        root,
        Key { objectid, item_type, offset: 0 },
        Key { objectid, item_type, offset: u64::MAX },
        MAX_DEPTH,
    )
}

/// All items of `objectid` in the tree at `root`.
pub open spec fn object_items(fs: FsV, root: u64, objectid: u64) -> Outcome<Seq<Item>> {
    range_items(
        fs,
        Map::empty(),
        root,
        Key { objectid, item_type: 0, offset: 0 },
        Key { objectid, item_type: 255, offset: u64::MAX },
    )
}

/// Inode `ino` of the tree at `root`.
pub open spec fn inode_of(fs: FsV, root: u64, ino: u64) -> Outcome<Inode> {
    match disk_item(fs, root, Key { objectid: ino, item_type: INODE_ITEM_KEY, offset: 0 }) {
        Err(e) => Err(e),
        Ok(None) => Err(Fault::CorruptFs("btrfs inode item not found"@)),
        Ok(Some(d)) => parse_inode(ino, d),
    }
}

/// The first of `items` with this name.
pub open spec fn entry_named(items: Seq<DirItemV>, name: Seq<u8>) -> Option<DirItemV> {
    let i = first_idx(items, has_name(name));
    if i < items.len() {
        Some(items[i])
    } else {
        None
    }
}

/// The key of the directory item for `name` in directory `dir`.
pub open spec fn entry_key(dir: u64, name: Seq<u8>) -> Key {
    Key { objectid: dir, item_type: DIR_ITEM_KEY, offset: hash_of_name(name) }
}

/// The entry `name` of directory `dir` in the tree at `root`.
pub open spec fn entry_in(fs: FsV, root: u64, dir: u64, name: Seq<u8>) -> Outcome<
    Option<DirItemV>,
> {
    match disk_item(fs, root, entry_key(dir, name)) {
        Err(e) => Err(e),
        Ok(None) => Ok(None),
        Ok(Some(d)) => match dir_entries(d) {
            Err(e) => Err(e),
            Ok(items) => Ok(entry_named(items, name)),
        },
    }
}

/// A file: its inode, and the tree that the inode belongs to.
#[derive(Debug, Clone, Copy, PartialEq, Eq, Structural)]
pub struct Located {
    pub tree: TreeRoot,
    pub inode: Inode,
}

/// The root directory of a tree.
pub open spec fn top_of(fs: FsV, tree: TreeRoot) -> Outcome<Located> {
    match inode_of(fs, tree.bytenr, tree.root_dirid) {
        Err(e) => Err(e),
        Ok(inode) => Ok(Located { tree, inode }),
    }
}

/// What an entry of a directory in `tree` stands for. An entry that names the
/// root of another tree leads to that tree's root directory.
pub open spec fn target_of(fs: FsV, tree: TreeRoot, location: Key) -> Outcome<Located> {
    if location.item_type == ROOT_ITEM_KEY {
        match root_of(fs, location.objectid) {
            Err(e) => Err(e),
            Ok(t) => top_of(fs, t),
        }
    } else {
        match inode_of(fs, tree.bytenr, location.objectid) {
            Err(e) => Err(e),
            Ok(inode) => Ok(Located { tree, inode }),
        }
    }
}

/// The file `name` in directory `at`, on the way along `path`.
pub open spec fn child_of(fs: FsV, at: Located, path: Seq<char>, name: Seq<char>) -> Outcome<
    Located,
> {
    if at.inode.kind() != FileType::Directory {
        Err(Fault::NotADirectory(path))
    } else {
        match entry_in(fs, at.tree.bytenr, at.inode.objectid, utf8(name)) {
            Err(e) => Err(e),
            Ok(None) => Err(Fault::NotFound(path)),
            Ok(Some(e)) => target_of(fs, at.tree, e.location),
        }
    }
}

/// The directories passed on the way along `steps`, from `top` on, with the
/// file that the way leads to as the last. `..` goes one back, but not above
/// `top`. Links are not followed.
pub open spec fn trail(fs: FsV, top: Located, path: Seq<char>, steps: Seq<Seq<char>>) -> Outcome<
    Seq<Located>,
>
    decreases steps.len(),
{
    if steps.len() == 0 {
        Ok(seq![top])
    } else {
        match trail(fs, top, path, steps.drop_last()) {
            Err(e) => Err(e),
            Ok(t) => if steps.last() == ".."@ {
                Ok(
                    if t.len() > 1 {
                        t.drop_last()
                    } else {
                        t
                    },
                )
            } else {
                match child_of(fs, t.last(), path, steps.last()) {
                    Err(e) => Err(e),
                    Ok(x) => Ok(t.push(x)),
                }
            },
        }
    }
}

/// The file at `path`, from the root directory of `tree`.
pub open spec fn resolved(fs: FsV, tree: TreeRoot, path: Seq<char>) -> Outcome<Located> {
    match top_of(fs, tree) {
        Err(e) => Err(e),
        Ok(top) => match trail(fs, top, path, components(path)) {
            Err(e) => Err(e),
            Ok(t) => Ok(t.last()),
        },
    }
}

pub proof fn trail_err(fs: FsV, top: Located, path: Seq<char>, steps: Seq<Seq<char>>, n: int)
    requires
        0 <= n <= steps.len(),
        trail(fs, top, path, steps.take(n)) is Err,
    ensures
        trail(fs, top, path, steps) == trail(fs, top, path, steps.take(n)),
    decreases steps.len() - n,
{
    if n == steps.len() {
        assert(steps.take(n) =~= steps);
    } else {
        assert(steps.take(n + 1).drop_last() =~= steps.take(n));
        trail_err(fs, top, path, steps, n + 1);
    }
}

/// The highest index in a directory's index items, at least 1.
pub open spec fn top_index(items: Seq<Item>) -> u64
    decreases items.len(),
{
    if items.len() == 0 {
        1
    } else {
        let m = top_index(items.drop_last());
        if items.last().key.offset > m {
            items.last().key.offset
        } else {
            m
        }
    }
}

/// The index for the next entry of directory `dir`.
pub open spec fn next_index(fs: FsV, root: u64, dir: u64) -> Outcome<u64> {
    match typed_items(fs, root, dir, DIR_INDEX_KEY) {
        Err(e) => Err(e),
        Ok(items) => Ok(cap64(top_index(items) + 1)),
    }
}

/// `r` is what the model says of a plain value, or the device failed.
pub open spec fn gives<T>(steady: bool, r: Result<T>, want: Outcome<T>) -> bool {
    match r {
        Ok(v) => want == Ok::<T, Fault>(v),
        Err(e) => want == Err::<T, Fault>(e@) || (!steady && e@ is Io),
    }
}

impl<D: ReadAt> Btrfs<D> {
    /// The payload of the item with `key` in the tree at `root`.
    pub fn find_item(&self, root: u64, key: &Key) -> (r: Result<Option<Vec<u8>>>)
        ensures
            finds(self.steady(), r, disk_item(self@, root, *key)),
    {
        let none = BlockMap::new();
        find_item_in_tree(self, &none, root, key)
    }

    /// The items of type `item_type` of `objectid` in the tree at `root`.
    pub fn items_of_type(&self, root: u64, objectid: u64, item_type: u8) -> (r: Result<
        Vec<LeafItem>,
    >)
        ensures
            yields(self.steady(), r, typed_items(self@, root, objectid, item_type)),
    {
        let none = BlockMap::new();
        let lo = Key::new(objectid, item_type, 0);
        let hi = Key::new(objectid, item_type, u64::MAX);
        collect_range(self, &none, root, &lo, &hi)
    }

    /// The key of the first item of type `item_type` of `objectid` in the tree at
    /// `root`. Nothing behind it is read.
    pub fn first_of_type(&self, root: u64, objectid: u64, item_type: u8) -> (r: Result<
        Option<Key>,
    >)
        ensures
            gives(self.steady(), r, first_typed(self@, root, objectid, item_type)),
    {
        let lo = Key::new(objectid, item_type, 0);
        let hi = Key::new(objectid, item_type, u64::MAX);
        find_first(self, root, &lo, &hi, MAX_DEPTH)
    }

    /// All items of `objectid` in the tree at `root`.
    pub fn items_of_object(&self, root: u64, objectid: u64) -> (r: Result<Vec<LeafItem>>)
        ensures
            yields(self.steady(), r, object_items(self@, root, objectid)),
    {
        let none = BlockMap::new();
        let lo = Key::new(objectid, 0, 0);
        let hi = Key::new(objectid, 255, u64::MAX);
        collect_range(self, &none, root, &lo, &hi)
    }

    /// Read inode `ino` of the tree at `root`.
    pub fn read_inode(&self, root: u64, ino: u64) -> (r: Result<Inode>)
        ensures
            gives(self.steady(), r, inode_of(self@, root, ino)),
    {
        let key = Key::new(ino, INODE_ITEM_KEY, 0);
        match self.find_item(root, &key)? {
            None => Err(LuksError::CorruptFs("btrfs inode item not found")),
            Some(d) => Inode::parse(ino, d.as_slice()),
        }
    }

    /// Look up the entry `name` of directory `dir` in the tree at `root`.
    pub fn lookup(&self, root: u64, dir: u64, name: &str) -> (r: Result<Option<DirItem>>)
        ensures
            agrees(
                self.steady(),
                r,
                entry_in(self@, root, dir, utf8(name@)),
                |x: Option<DirItem>|
                    match x {
                        Some(e) => Some(e@),
                        None => None,
                    },
            ),
    {
        let raw = bytes_of(name);
        let key = Key::new(dir, DIR_ITEM_KEY, name_hash(raw));
        match self.find_item(root, &key)? {
            None => Ok(None),
            Some(d) => {
                let mut items = parse_dir_entries(d.as_slice())?;
                let ghost all = dir_items_of(items@);
                let i: usize = find_name(&items, raw);
                if i < items.len() {
                    assert(all[i as int] == items@[i as int]@);
                    Ok(Some(items.swap_remove(i)))
                } else {
                    Ok(None)
                }
            },
        }
    }

    fn root_directory(&self, tree: TreeRoot) -> (r: Result<Located>)
        ensures
            gives(self.steady(), r, top_of(self@, tree)),
    {
        let inode = self.read_inode(tree.bytenr, tree.root_dirid)?;
        Ok(Located { tree, inode })
    }

    fn follow(&self, at: &Located, path: &str, name: &str) -> (r: Result<Located>)
        ensures
            gives(self.steady(), r, child_of(self@, *at, path@, name@)),
    {
        if !at.inode.file_type().is_dir() {
            return Err(LuksError::NotADirectory(text(path)));
        }
        match self.lookup(at.tree.bytenr, at.inode.objectid, name)? {
            None => Err(LuksError::NotFound(text(path))),
            Some(e) => {
                if e.location.item_type == ROOT_ITEM_KEY {
                    let t = self.tree_root(e.location.objectid)?;
                    self.root_directory(t)
                } else {
                    let inode = self.read_inode(at.tree.bytenr, e.location.objectid)?;
                    Ok(Located { tree: at.tree, inode })
                }
            },
        }
    }

    /// Find the file at `path`, from the root directory of `tree`, without
    /// following links.
    pub fn resolve_no_follow(&self, tree: TreeRoot, path: &str) -> (r: Result<Located>)
        ensures
            gives(self.steady(), r, resolved(self@, tree, path@)),
    {
        let top = self.root_directory(tree)?;
        let parts = split_path(path);
        let ghost all = texts(parts@);
        let n: usize = parts.len();
        let mut way: Vec<Located> = Vec::new();
        way.push(top);
        assert(way@ =~= seq![top]);
        assert(all.take(0) =~= Seq::<Seq<char>>::empty());
        let mut i: usize = 0;
        while i < n
            invariant
                i <= n,
                n == parts@.len(),
                all == texts(parts@),
                all == components(path@),
                top_of(self@, tree) == Ok::<Located, Fault>(top),
                way@.len() > 0,
                trail(self@, top, path@, all.take(i as int)) == Ok::<Seq<Located>, Fault>(way@),
            decreases n - i,
        {
            proof {
                assert(all.take(i + 1).drop_last() =~= all.take(i as int));
                assert(all.take(i + 1).last() == parts@[i as int]@);
            }
            if text_eq(parts[i], "..") {
                if way.len() > 1 {
                    let ghost before = way@;
                    let _ = way.pop();
                    assert(way@ =~= before.drop_last());
                }
            } else {
                let at = way[way.len() - 1];
                match self.follow(&at, path, parts[i]) {
                    Ok(x) => {
                        way.push(x);
                    },
                    Err(e) => {
                        proof {
                            if trail(self@, top, path@, all.take(i + 1)) is Err {
                                trail_err(self@, top, path@, all, i + 1);
                            }
                        }
                        return Err(e);
                    },
                }
            }
            i += 1;
        }
        assert(all.take(n as int) =~= all);
        Ok(way[way.len() - 1])
    }

    /// The index for the next entry of directory `dir` in the tree at `root`.
    pub fn next_dir_index(&self, root: u64, dir: u64) -> (r: Result<u64>)
        ensures
            gives(self.steady(), r, next_index(self@, root, dir)),
    {
        let items = self.items_of_type(root, dir, DIR_INDEX_KEY)?;
        let ghost all = items_of(items@);
        let n: usize = items.len();
        let mut top: u64 = 1;
        let mut i: usize = 0;
        assert(all.take(0) =~= Seq::<Item>::empty());
        while i < n
            invariant
                i <= n,
                n == items@.len(),
                all == items_of(items@),
                top == top_index(all.take(i as int)),
            decreases n - i,
        {
            proof {
                assert(all.take(i + 1).drop_last() =~= all.take(i as int));
                assert(all.take(i + 1).last() == items@[i as int]@);
            }
            if items[i].key.offset > top {
                top = items[i].key.offset;
            }
            i += 1;
        }
        assert(all.take(n as int) =~= all);
        Ok(top.saturating_add(1))
    }
}

} // verus!
