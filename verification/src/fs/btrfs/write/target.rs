//! The tree that a transaction or batch changes.
//!
//! A subvolume is a tree of its own, with its own inode numbers. `TargetTree`
//! keeps the tree's id and its root together, so that neither is mistaken for
//! an inode number or for the default subvolume.

use vstd::prelude::*;

use crate::fs::btrfs::tree::FS_TREE_OBJECTID;
use crate::fs::btrfs::volume::TreeRoot;

verus! {

/// The tree that a transaction or batch changes.
#[derive(Debug, Clone, Copy, PartialEq, Eq, Structural)]
pub struct TargetTree {
    pub objectid: u64,
    pub root: TreeRoot,
}

impl TargetTree {
    /// Target the tree that `root` belongs to.
    pub fn new(root: TreeRoot) -> (r: Self)
        ensures
            r == (TargetTree { objectid: root.objectid, root }),
    {
        TargetTree { objectid: root.objectid, root }
    }

    /// Target the default subvolume.
    pub fn from_fs_tree(root: TreeRoot) -> (r: Self)
        ensures
            r == (TargetTree { objectid: FS_TREE_OBJECTID, root }),
    {
        TargetTree { objectid: FS_TREE_OBJECTID, root }
    }

    /// Whether this is the default subvolume.
    pub fn is_fs_tree(&self) -> (r: bool)
        ensures
            r == (self.objectid == FS_TREE_OBJECTID),
    {
        self.objectid == FS_TREE_OBJECTID
    }

    /// The address of the root node.
    pub fn bytenr(&self) -> (r: u64)
        ensures
            r == self.root.bytenr,
    {
        self.root.bytenr
    }

    /// The level of the root node.
    pub fn level(&self) -> (r: u8)
        ensures
            r == self.root.level,
    {
        self.root.level
    }

    /// The generation of the root node.
    pub fn generation(&self) -> (r: u64)
        ensures
            r == self.root.generation,
    {
        self.root.generation
    }

    /// The inode number of the root directory.
    pub fn root_dirid(&self) -> (r: u64)
        ensures
            r == self.root.root_dirid,
    {
        self.root.root_dirid
    }

    /// Whether the tree is marked read-only.
    pub fn is_read_only(&self) -> (r: bool)
        ensures
            r == self.root.read_only(),
    {
        self.root.is_read_only()
    }

    /// Move the root, after the tree was changed.
    pub fn update_root(&mut self, bytenr: u64, level: u8, generation: u64)
        ensures
            *final(self) == (TargetTree {
                root: TreeRoot { bytenr, level, generation, ..old(self).root },
                ..*old(self)
            }),
    {
        self.root.bytenr = bytenr;
        self.root.level = level;
        self.root.generation = generation;
    }
}

} // verus!
