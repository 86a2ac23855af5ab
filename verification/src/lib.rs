//! A userspace storage engine: an ext4 reader and a btrfs copy-on-write
//! writer over a block device.
//!
//! Every function that handles on-disk structures carries a contract over
//! mathematical models of the disk image, the B-trees on it and the free-space
//! map, and is proved against that contract.

pub mod bytes;
pub mod device;
pub mod error;
pub mod seqs;
pub mod sort;
pub mod text;
pub mod fs;
