//! Read-only ext2/ext3/ext4.
//!
//! Both ways of mapping blocks are read: extent trees, and the indirect blocks
//! of ext2 and ext3. Directories are scanned from end to end; an indexed
//! directory keeps its index inside entries without an inode, so the scan still
//! meets every entry.

pub mod data;
pub mod dir;
pub mod layout;
pub mod map;
pub mod path;
pub mod records;
pub mod splitting;
pub mod stored;
pub mod volume;
pub mod ways;

pub use volume::{Ext4, Inode, Superblock};
