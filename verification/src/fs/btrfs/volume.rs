//! A mounted btrfs volume and reading its tree nodes.

use vstd::prelude::*;

use crate::bytes::splice;
use crate::device::{image_read, DeviceOp, ReadAt, WriteAt};
use crate::error::{tracks, Fault, LuksError, Outcome, Result};
use crate::fs::btrfs::blocks::BlockMap;
use crate::fs::btrfs::chunk::{locate, with_chunk, Chunk, ChunkMap, ChunkV};
use crate::fs::btrfs::superblock::{SuperV, Superblock};
use crate::fs::btrfs::tree::{parse_node, Node, NodeV};
use crate::fs::btrfs::write::batch::{Batch, BatchV};

verus! {

/// Flag of a read-only subvolume.
pub const ROOT_FLAG_READ_ONLY: u64 = 1;

/// Where the root node of a tree lives.
#[derive(Debug, Clone, Copy, PartialEq, Eq, Structural)]
pub struct TreeRoot {
    pub objectid: u64,
    pub bytenr: u64,
    pub generation: u64,
    pub root_dirid: u64,
    pub flags: u64,
    pub level: u8,
}

impl TreeRoot {
    /// Whether the subvolume is marked read-only.
    pub open spec fn read_only(self) -> bool {
        self.flags & ROOT_FLAG_READ_ONLY != 0
    }

    /// Whether the subvolume is marked read-only.
    pub fn is_read_only(&self) -> (r: bool)
        ensures
            r == self.read_only(),
    {
        self.flags & ROOT_FLAG_READ_ONLY != 0
    }
}

/// The mathematical view of a mounted volume.
#[verifier::ext_equal]
pub struct FsV {
    pub disk: Seq<u8>,
    pub sb: SuperV,
    pub chunks: Seq<ChunkV>,
    pub fs_tree: TreeRoot,
}

/// The block of a tree node on the device.
pub open spec fn disk_block(fs: FsV, bytenr: u64) -> Outcome<Seq<u8>> {
    match locate(fs.chunks, bytenr) {
        Err(e) => Err(e),
        Ok((places, run)) => if run < fs.sb.node_size {
            Err(Fault::CorruptFs("btrfs node crosses the end of its chunk"@))
        } else {
            image_read(fs.disk, places[0] as int, fs.sb.node_size as int)
        },
    }
}

/// The tree node on the device at `bytenr`.
#[verifier::opaque]
pub open spec fn disk_node(fs: FsV, bytenr: u64) -> Outcome<NodeV> {
    match disk_block(fs, bytenr) {
        Err(e) => Err(e),
        Ok(raw) => parse_node(raw, bytenr, fs.sb.csum_type, fs.sb.metadata_uuid),
    }
}

/// The tree node at `bytenr`: a pending block if there is one, else the one on
/// the device.
#[verifier::opaque]
pub open spec fn node_at(fs: FsV, pending: Map<u64, Seq<u8>>, bytenr: u64) -> Outcome<NodeV> {
    if pending.contains_key(bytenr) {
        parse_node(pending[bytenr], bytenr, fs.sb.csum_type, fs.sb.metadata_uuid)
    } else {
        disk_node(fs, bytenr)
    }
}

/// A mounted btrfs volume.
pub struct Btrfs<D> {
    pub(crate) device: D,
    pub(crate) sb: Superblock,
    pub(crate) chunks: ChunkMap,
    pub(crate) fs_tree: TreeRoot,
    /// Files that are written but not committed.
    pub(crate) active_batch: Option<Batch>,
    /// Whether a file is being written.
    pub(crate) has_open_writer: bool,
}

/// Everything there is to know about a mounted volume that can be written.
#[verifier::ext_equal]
pub struct VolV {
    pub fs: FsV,
    pub batch: Option<BatchV>,
    pub writer: bool,
    pub steady: bool,
    pub len: Option<u64>,
    /// What was done to the device, oldest first.
    pub history: Seq<DeviceOp>,
}

impl<D: ReadAt> View for Btrfs<D> {
    type V = FsV;

    closed spec fn view(&self) -> FsV {
        FsV {
            disk: self.device.contents(),
            sb: self.sb@,
            chunks: self.chunks@,
            fs_tree: self.fs_tree,
        }
    }
}

impl<D: ReadAt> Btrfs<D> {
    /// Whether the device never fails a transfer within its bounds.
    pub closed spec fn steady(&self) -> bool {
        self.device.steady()
    }

    /// The superblock.
    pub fn superblock(&self) -> (r: &Superblock)
        ensures
            r@ == self@.sb,
    {
        &self.sb
    }

    /// The chunk map.
    pub fn chunk_map(&self) -> (r: &ChunkMap)
        ensures
            r@ == self@.chunks,
    {
        &self.chunks
    }

    /// The root of the default subvolume.
    pub fn fs_tree(&self) -> (r: TreeRoot)
        ensures
            r == self@.fs_tree,
    {
        self.fs_tree
    }

    /// The uuid of the chunk tree, as the root node of that tree records it.
    pub fn chunk_tree_uuid(&self) -> (r: Result<[u8; 16]>)
        ensures
            match r {
                Ok(u) => disk_node(self@, self@.sb.chunk_root) matches Ok(n) && n.chunk_tree_uuid
                    == u@,
                Err(e) => disk_node(self@, self@.sb.chunk_root) == Err::<NodeV, Fault>(e@) || (
                !self.steady() && e@ is Io),
            },
    {
        let node = self.read_node(self.sb.chunk_root)?;
        Ok(node.chunk_tree_uuid)
    }

    /// Read and check the tree node at `bytenr` of the device.
    pub fn read_node(&self, bytenr: u64) -> (r: Result<Node>)
        ensures
            tracks(self.steady(), r, disk_node(self@, bytenr)),
    {
        reveal(disk_node);
        let (at, run) = self.chunks.map(bytenr)?;
        if run < self.sb.node_size as u64 {
            return Err(LuksError::CorruptFs("btrfs node crosses the end of its chunk"));
        }
        let raw = self.device.read_at(at, self.sb.node_size as usize)?;
        Node::parse(raw.as_slice(), bytenr, self.sb.csum_type, &self.sb.metadata_uuid)
    }
}

impl<D: ReadAt> Btrfs<D> {
    /// The batch of uncommitted files, if there is one.
    pub closed spec fn batch(&self) -> Option<BatchV> {
        match self.active_batch {
            Some(b) => Some(b@),
            None => None,
        }
    }

    /// Whether a file is being written.
    pub closed spec fn writing(&self) -> bool {
        self.has_open_writer
    }

    /// The length that the device reports.
    pub closed spec fn reported_len(&self) -> Option<u64> {
        self.device.known_len()
    }

    /// Put a volume together.
    pub(crate) fn assemble(device: D, sb: Superblock, chunks: ChunkMap, fs_tree: TreeRoot) -> (r: Self)
        ensures
            r@ == (FsV { disk: device.contents(), sb: sb@, chunks: chunks@, fs_tree }),
            r.batch() is None,
            !r.writing(),
            r.steady() == device.steady(),
            r.reported_len() == device.known_len(),
    {
        Btrfs { device, sb, chunks, fs_tree, active_batch: None, has_open_writer: false }
    }

    /// Replace the chunk map.
    pub(crate) fn set_chunks(&mut self, chunks: ChunkMap)
        ensures
            final(self)@ == (FsV { chunks: chunks@, ..old(self)@ }),
            final(self).steady() == old(self).steady(),
            final(self).batch() == old(self).batch(),
            final(self).writing() == old(self).writing(),
    {
        self.chunks = chunks;
    }

    /// Replace the root of the default subvolume.
    pub(crate) fn set_fs_tree(&mut self, fs_tree: TreeRoot)
        ensures
            final(self)@ == (FsV { fs_tree, ..old(self)@ }),
            final(self).steady() == old(self).steady(),
            final(self).batch() == old(self).batch(),
            final(self).writing() == old(self).writing(),
    {
        self.fs_tree = fs_tree;
    }

    /// Give the device back.
    pub fn into_device(self) -> (r: D)
        ensures
            r.contents() == self@.disk,
    {
        self.device
    }

    /// Read `len` bytes of the device at `offset`.
    pub(crate) fn read_device(&self, offset: u64, len: usize) -> (r: Result<Vec<u8>>)
        ensures
            tracks(self.steady(), r, image_read(self@.disk, offset as int, len as int)),
    {
        self.device.read_at(offset, len)
    }

    /// The length of the device, where it is known.
    pub(crate) fn device_len(&self) -> (r: Option<u64>)
        ensures
            r == self.reported_len(),
            r matches Some(n) ==> n == self@.disk.len(),
    {
        self.device.len()
    }

    /// The batch of uncommitted files, if there is one.
    pub fn active_batch(&self) -> (r: Option<&Batch>)
        ensures
            match r {
                Some(b) => self.batch() == Some(b@),
                None => self.batch() is None,
            },
    {
        match &self.active_batch {
            Some(b) => Some(b),
            None => None,
        }
    }

    /// Whether a file is being written.
    pub(crate) fn is_writing(&self) -> (r: bool)
        ensures
            r == self.writing(),
    {
        self.has_open_writer
    }
}

impl<D: WriteAt> Btrfs<D> {
    /// What was done to the device, oldest first.
    pub closed spec fn history(&self) -> Seq<DeviceOp> {
        self.device.history()
    }

    /// Everything there is to know about the volume.
    pub open spec fn state(&self) -> VolV {
        VolV {
            fs: self@,
            batch: self.batch(),
            writer: self.writing(),
            steady: self.steady(),
            len: self.reported_len(),
            history: self.history(),
        }
    }

    /// Write `data` to the device at `offset`.
    pub(crate) fn write_device(&mut self, offset: u64, data: &[u8]) -> (r: Result<()>)
        ensures
            final(self).state() == (VolV {
                fs: FsV { disk: final(self)@.disk, ..old(self)@ },
                history: final(self).history(),
                ..old(self).state()
            }),
            match r {
                Ok(()) => {
                    &&& offset + data@.len() <= old(self)@.disk.len()
                    &&& final(self)@.disk == splice(old(self)@.disk, offset as int, data@)
                    &&& final(self).history() == old(self).history().push(
                        DeviceOp::Write { offset: offset as int, data: data@ },
                    )
                },
                Err(e) => {
                    &&& e@ is Io
                    &&& old(self).steady() ==> offset + data@.len() > old(self)@.disk.len()
                    &&& final(self).history() == old(self).history()
                    &&& final(self)@.disk.len() == old(self)@.disk.len()
                    &&& forall|x: int|
                        0 <= x < old(self)@.disk.len() && !(offset <= x < offset + data@.len())
                            ==> #[trigger] final(self)@.disk[x] == old(self)@.disk[x]
                },
            },
    {
        self.device.write_at(offset, data)
    }

    /// Force completed writes to the medium.
    pub(crate) fn flush_device(&mut self) -> (r: Result<()>)
        ensures
            final(self).state() == (VolV {
                history: final(self).history(),
                ..old(self).state()
            }),
            match r {
                Ok(()) => final(self).history() == old(self).history().push(DeviceOp::Flush),
                Err(e) => e@ is Io && !old(self).steady() && final(self).history() == old(
                    self,
                ).history(),
            },
    {
        self.device.flush()
    }

    /// Take over what a commit wrote.
    pub(crate) fn update_mount_state(&mut self, sb: Superblock, fs_tree: TreeRoot)
        ensures
            final(self).state() == (VolV {
                fs: FsV { sb: sb@, fs_tree, ..old(self)@ },
                ..old(self).state()
            }),
    {
        self.sb = sb;
        self.fs_tree = fs_tree;
    }

    /// Add a chunk to the map.
    pub(crate) fn add_chunk(&mut self, chunk: Chunk)
        ensures
            final(self).state() == (VolV {
                fs: FsV { chunks: with_chunk(old(self)@.chunks, chunk@), ..old(self)@ },
                ..old(self).state()
            }),
    {
        self.chunks.insert(chunk);
    }

    /// Take the batch out.
    pub(crate) fn take_batch(&mut self) -> (r: Option<Batch>)
        ensures
            final(self).state() == (VolV { batch: None, ..old(self).state() }),
            match r {
                Some(b) => old(self).batch() == Some(b@),
                None => old(self).batch() is None,
            },
    {
        self.active_batch.take()
    }

    /// Put a batch in.
    pub(crate) fn put_batch(&mut self, b: Batch)
        ensures
            final(self).state() == (VolV { batch: Some(b@), ..old(self).state() }),
    {
        self.active_batch = Some(b);
    }

    /// Note whether a file is being written.
    pub(crate) fn set_writing(&mut self, w: bool)
        ensures
            final(self).state() == (VolV { writer: w, ..old(self).state() }),
    {
        self.has_open_writer = w;
    }
}

/// Read a node from the pending blocks, or else from the device.
pub fn read_node<D: ReadAt>(fs: &Btrfs<D>, pending: &BlockMap, bytenr: u64) -> (r: Result<Node>)
    ensures
        tracks(fs.steady(), r, node_at(fs@, pending@, bytenr)),
{
    reveal(node_at);
    match pending.get(bytenr) {
        Some(raw) => Node::parse(raw.as_slice(), bytenr, fs.sb.csum_type, &fs.sb.metadata_uuid),
        None => fs.read_node(bytenr),
    }
}

} // verus!
