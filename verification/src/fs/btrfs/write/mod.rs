//! Btrfs write support.

pub mod adding;
pub mod appending;
pub mod balance;
pub mod batch;
pub mod batching;
pub mod booking;
pub mod bookkeeping;
pub mod change;
pub mod checking;
pub mod chunk_alloc;
pub mod claiming;
pub mod clearing;
pub mod commit;
pub mod contents;
pub mod converge;
pub mod counters;
pub mod counting;
pub mod cow;
pub mod creation;
pub mod csum_delete;
pub mod custody;
pub mod edit;
pub mod editing;
pub mod entries;
pub mod ends;
pub mod erase;
pub mod exclude;
pub mod extent_tree;
pub mod file;
pub mod filling;
pub mod forgoing;
pub mod gate;
pub mod granting;
pub mod growing;
pub mod grove;
pub mod handout;
pub mod holdings;
pub mod insertion;
pub mod interval_set;
pub mod landing;
pub mod linking;
pub mod load;
pub mod making;
pub mod moving;
pub mod node;
pub mod ops;
pub mod parting;
pub mod payload;
pub mod pieces;
pub mod placing;
pub mod promises;
pub mod ranges;
pub mod readback;
pub mod recording;
pub mod releasing;
pub mod remount;
pub mod removal;
pub mod resolving;
pub mod rooming;
pub mod rooting;
pub mod roundtrip;
pub mod safety;
pub mod sequel;
pub mod settling;
pub mod space;
pub mod sparing;
pub mod splice;
pub mod stamping;
pub mod stream;
pub mod summing;
pub mod sweep;
pub mod target;
pub mod tiling;
pub mod tree_map;
pub mod txn;
pub mod unlink;
pub mod withholding;
pub mod workspace;
