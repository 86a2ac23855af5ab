//! Btrfs: tree nodes, superblocks, the chunk map and the volume built on them.

pub mod blocks;
pub mod chunk;
pub mod crc32c;
pub mod extent;
pub mod files;
pub mod formats;
pub mod inode;
pub mod layouts;
pub mod listing;
pub mod mount;
pub mod numbers;
pub mod roots;
pub mod search;
pub mod sha256;
pub mod superblock;
pub mod tree;
pub mod volume;
pub mod ways;
pub mod write;
