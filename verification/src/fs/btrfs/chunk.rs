//! The chunk map: where logical addresses live on the device.

use vstd::prelude::*;

use crate::bytes::{
    append_bytes, append_u16, append_u32, append_u64, enc16, enc32, enc64, get_array, get_u16,
    get_u32, get_u64, le16, le32, le64,
};
use crate::error::{text, Fault, LuksError, Outcome, Result};
use crate::fs::btrfs::tree::{
    Key, CHUNK_ITEM_KEY, CHUNK_TREE_OBJECTID, DEV_EXTENT_KEY, EXTENT_TREE_OBJECTID,
    FIRST_CHUNK_TREE_OBJECTID,
};

verus! {

pub const BLOCK_GROUP_DATA: u64 = 1;
pub const BLOCK_GROUP_SYSTEM: u64 = 2;
pub const BLOCK_GROUP_METADATA: u64 = 4;
pub const BLOCK_GROUP_RAID0: u64 = 8;
pub const BLOCK_GROUP_RAID1: u64 = 16;
pub const BLOCK_GROUP_DUP: u64 = 32;
pub const BLOCK_GROUP_RAID10: u64 = 64;
pub const BLOCK_GROUP_RAID5: u64 = 128;
pub const BLOCK_GROUP_RAID6: u64 = 256;
pub const BLOCK_GROUP_RAID1C3: u64 = 512;
pub const BLOCK_GROUP_RAID1C4: u64 = 1024;
/// Profiles that spread a chunk over more than one device.
pub const BLOCK_GROUP_STRIPED: u64 = 0x7D8;

/// One copy of a chunk on a device.
#[derive(Debug, Clone, Copy, PartialEq, Eq)]
pub struct Stripe {
    pub devid: u64,
    pub offset: u64,
    pub dev_uuid: [u8; 16],
}

impl Stripe {
    /// A stripe.
    pub fn new(devid: u64, offset: u64, dev_uuid: [u8; 16]) -> (r: Self)
        ensures
            r.devid == devid,
            r.offset == offset,
            r.dev_uuid == dev_uuid,
    {
        Stripe { devid, offset, dev_uuid }
    }
}

/// A contiguous range of logical addresses and its copies on the device.
#[derive(Debug, PartialEq, Eq)]
pub struct Chunk {
    pub logical: u64,
    pub length: u64,
    pub owner: u64,
    pub stripe_len: u64,
    pub chunk_type: u64,
    pub io_align: u32,
    pub io_width: u32,
    pub sector_size: u32,
    pub sub_stripes: u16,
    pub stripes: Vec<Stripe>,
}

/// The mathematical view of a [`Chunk`].
pub struct ChunkV {
    pub logical: u64,
    pub length: u64,
    pub owner: u64,
    pub stripe_len: u64,
    pub chunk_type: u64,
    pub io_align: u32,
    pub io_width: u32,
    pub sector_size: u32,
    pub sub_stripes: u16,
    pub stripes: Seq<Stripe>,
}

impl View for Chunk {
    type V = ChunkV;

    open spec fn view(&self) -> ChunkV {
        ChunkV {
            logical: self.logical,
            length: self.length,
            owner: self.owner,
            stripe_len: self.stripe_len,
            chunk_type: self.chunk_type,
            io_align: self.io_align,
            io_width: self.io_width,
            sector_size: self.sector_size,
            sub_stripes: self.sub_stripes,
            stripes: self.stripes@,
        }
    }
}

impl Clone for Chunk {
    fn clone(&self) -> (r: Self)
        ensures
            r@ == self@,
    {
        let mut stripes: Vec<Stripe> = Vec::new();
        let mut i: usize = 0;
        while i < self.stripes.len()
            invariant
                i <= self.stripes@.len(),
                stripes@ == self.stripes@.take(i as int),
            decreases self.stripes@.len() - i,
        {
            stripes.push(self.stripes[i]);
            i += 1;
            assert(stripes@ =~= self.stripes@.take(i as int));
        }
        assert(stripes@ =~= self.stripes@);
        Chunk {
            logical: self.logical,
            length: self.length,
            owner: self.owner,
            stripe_len: self.stripe_len,
            chunk_type: self.chunk_type,
            io_align: self.io_align,
            io_width: self.io_width,
            sector_size: self.sector_size,
            sub_stripes: self.sub_stripes,
            stripes,
        }
    }
}

/// Stripe `i` of a chunk item.
pub open spec fn stripe_matches(data: Seq<u8>, base: int, s: Stripe) -> bool {
    &&& s.devid == le64(data, base)
    &&& s.offset == le64(data, base + 8)
    &&& s.dev_uuid@ == data.subrange(base + 16, base + 32)
}

/// Whether `c` is the chunk that an item at `logical` describes from byte
/// `o` of `data` on.
pub open spec fn chunk_matches(logical: u64, data: Seq<u8>, o: int, c: ChunkV) -> bool {
    &&& c.logical == logical
    &&& c.length == le64(data, o)
    &&& c.owner == le64(data, o + 8)
    &&& c.stripe_len == le64(data, o + 16)
    &&& c.chunk_type == le64(data, o + 24)
    &&& c.io_align == le32(data, o + 32)
    &&& c.io_width == le32(data, o + 36)
    &&& c.sector_size == le32(data, o + 40)
    &&& c.sub_stripes == le16(data, o + 46)
    &&& c.stripes.len() == le16(data, o + 44)
    &&& forall|i: int|
        0 <= i < c.stripes.len() ==> stripe_matches(data, o + 48 + 32 * i, #[trigger] c.stripes[i])
}

/// Bytes of the chunk item at byte `o` of `data`, or 0 if it is truncated.
pub open spec fn chunk_item_len(data: Seq<u8>, o: int) -> int {
    if o + 48 > data.len() || o + 48 + 32 * le16(data, o + 44) > data.len() {
        0
    } else {
        48 + 32 * le16(data, o + 44)
    }
}

/// A stripe on disk.
pub open spec fn stripe_bytes(s: Stripe) -> Seq<u8> {
    enc64(s.devid) + enc64(s.offset) + s.dev_uuid@
}

/// The stripes of a chunk item.
pub open spec fn stripe_block(s: Seq<Stripe>) -> Seq<u8>
    decreases s.len(),
{
    if s.len() == 0 {
        Seq::empty()
    } else {
        stripe_block(s.drop_last()) + stripe_bytes(s.last())
    }
}

/// The payload of a chunk item.
pub open spec fn chunk_bytes(c: ChunkV) -> Seq<u8> {
    enc64(c.length) + enc64(c.owner) + enc64(c.stripe_len) + enc64(c.chunk_type) + enc32(c.io_align)
        + enc32(c.io_width) + enc32(c.sector_size) + enc16(c.stripes.len() as u16) + enc16(
        c.sub_stripes,
    ) + stripe_block(c.stripes)
}

impl Chunk {
    /// A chunk with a single copy.
    pub fn new_single(
        logical: u64,
        length: u64,
        chunk_type: u64,
        devid: u64,
        physical: u64,
        dev_uuid: [u8; 16],
    ) -> (r: Self)
        ensures
            r@ == (ChunkV {
                logical,
                length,
                owner: EXTENT_TREE_OBJECTID,
                stripe_len: 65536,
                chunk_type,
                io_align: 65536,
                io_width: 65536,
                sector_size: 4096,
                sub_stripes: 1,
                stripes: seq![Stripe { devid, offset: physical, dev_uuid }],
            }),
    {
        let mut stripes: Vec<Stripe> = Vec::new();
        stripes.push(Stripe { devid, offset: physical, dev_uuid });
        assert(stripes@ =~= seq![Stripe { devid, offset: physical, dev_uuid }]);
        Chunk {
            logical,
            length,
            owner: EXTENT_TREE_OBJECTID,
            stripe_len: 65536,
            chunk_type,
            io_align: 65536,
            io_width: 65536,
            sector_size: 4096,
            sub_stripes: 1,
            stripes,
        }
    }

    /// The chunk item at byte `o` of `data` for logical address `logical`, with
    /// the bytes it takes up.
    pub fn parse_at(logical: u64, data: &[u8], o: usize) -> (r: Result<(Self, usize)>)
        requires
            o <= data@.len(),
        ensures
            match r {
                Ok((c, n)) => {
                    &&& chunk_matches(logical, data@, o as int, c@)
                    &&& n == chunk_item_len(data@, o as int)
                    &&& n > 0
                    &&& o + n <= data@.len()
                },
                Err(e) => {
                    &&& chunk_item_len(data@, o as int) == 0
                    &&& e@ == Fault::CorruptFs("btrfs chunk item truncated"@)
                },
            },
    {
        let n: usize = data.len();
        if n - o < 48 {
            return Err(LuksError::CorruptFs("btrfs chunk item truncated"));
        }
        let count: u16 = get_u16(data, o + 44);
        let size: usize = 48 + 32 * (count as usize);
        if n - o < size {
            return Err(LuksError::CorruptFs("btrfs chunk item truncated"));
        }
        let mut stripes: Vec<Stripe> = Vec::new();
        let mut i: usize = 0;
        while i < count as usize
            invariant
                i <= count,
                n == data@.len(),
                o + 48 + 32 * count <= n,
                stripes@.len() == i,
                forall|k: int|
                    0 <= k < i ==> stripe_matches(
                        data@,
                        o + 48 + 32 * k,
                        #[trigger] stripes@[k],
                    ),
            decreases count - i,
        {
            let base: usize = o + 48 + 32 * i;
            let s = Stripe {
                devid: get_u64(data, base),
                offset: get_u64(data, base + 8),
                dev_uuid: get_array::<16>(data, base + 16),
            };
            assert(stripe_matches(data@, base as int, s));
            stripes.push(s);
            i += 1;
        }
        let c = Chunk {
            logical,
            length: get_u64(data, o),
            owner: get_u64(data, o + 8),
            stripe_len: get_u64(data, o + 16),
            chunk_type: get_u64(data, o + 24),
            io_align: get_u32(data, o + 32),
            io_width: get_u32(data, o + 36),
            sector_size: get_u32(data, o + 40),
            sub_stripes: get_u16(data, o + 46),
            stripes,
        };
        Ok((c, size))
    }

    /// The key and payload of this chunk's item.
    pub fn emit(&self) -> (r: (Key, Vec<u8>))
        ensures
            r.0 == (Key {
                objectid: FIRST_CHUNK_TREE_OBJECTID,
                item_type: CHUNK_ITEM_KEY,
                offset: self.logical,
            }),
            r.1@ == chunk_bytes(self@),
    {
        let mut v: Vec<u8> = Vec::new();
        append_u64(&mut v, self.length);
        append_u64(&mut v, self.owner);
        append_u64(&mut v, self.stripe_len);
        append_u64(&mut v, self.chunk_type);
        append_u32(&mut v, self.io_align);
        append_u32(&mut v, self.io_width);
        append_u32(&mut v, self.sector_size);
        append_u16(&mut v, self.stripes.len() as u16);
        append_u16(&mut v, self.sub_stripes);
        let ghost head = v@;
        let mut i: usize = 0;
        assert(self.stripes@.take(0) =~= Seq::<Stripe>::empty());
        assert(v@ =~= head + stripe_block(self.stripes@.take(0)));
        while i < self.stripes.len()
            invariant
                i <= self.stripes@.len(),
                v@ == head + stripe_block(self.stripes@.take(i as int)),
            decreases self.stripes@.len() - i,
        {
            let s = self.stripes[i];
            append_u64(&mut v, s.devid);
            append_u64(&mut v, s.offset);
            append_bytes(&mut v, s.dev_uuid.as_slice());
            proof {
                assert(self.stripes@.take(i + 1).drop_last() =~= self.stripes@.take(i as int));
                assert(v@ =~= head + stripe_block(self.stripes@.take(i + 1)));
            }
            i += 1;
        }
        assert(self.stripes@.take(self.stripes@.len() as int) =~= self.stripes@);
        assert(v@ =~= chunk_bytes(self@));
        (Key::new(FIRST_CHUNK_TREE_OBJECTID, CHUNK_ITEM_KEY, self.logical), v)
    }
}

/// The views of a sequence of chunks.
pub open spec fn chunks_of(s: Seq<Chunk>) -> Seq<ChunkV> {
    s.map_values(|c: Chunk| c@)
}

/// How many leading chunks start below `logical`.
pub open spec fn chunk_slot(chunks: Seq<ChunkV>, logical: u64) -> int
    decreases chunks.len(),
{
    if chunks.len() == 0 {
        0
    } else {
        let p = chunk_slot(chunks.drop_last(), logical);
        if p < chunks.len() - 1 || chunks.last().logical >= logical {
            p
        } else {
            chunks.len() as int
        }
    }
}

proof fn chunk_slot_unique(chunks: Seq<ChunkV>, logical: u64, p: int)
    requires
        0 <= p <= chunks.len(),
        forall|j: int| 0 <= j < p ==> (#[trigger] chunks[j]).logical < logical,
        p < chunks.len() ==> chunks[p].logical >= logical,
    ensures
        chunk_slot(chunks, logical) == p,
    decreases chunks.len(),
{
    if chunks.len() > 0 {
        if p == chunks.len() {
            chunk_slot_unique(chunks.drop_last(), logical, p - 1);
            assert(chunks[p - 1].logical < logical);
        } else {
            chunk_slot_unique(chunks.drop_last(), logical, p);
        }
    }
}

/// The map with `c` added in address order; a chunk at the same address gives
/// way.
pub open spec fn with_chunk(chunks: Seq<ChunkV>, c: ChunkV) -> Seq<ChunkV> {
    let p = chunk_slot(chunks, c.logical);
    if p < chunks.len() && chunks[p].logical == c.logical {
        chunks.update(p, c)
    } else {
        chunks.insert(p, c)
    }
}

/// Whether a chunk holds the logical address `x`.
pub open spec fn chunk_covers(c: ChunkV, x: u64) -> bool {
    c.logical <= x < c.logical + c.length
}

/// The first chunk that holds `x`, or the number of chunks.
pub open spec fn chunk_holding(chunks: Seq<ChunkV>, x: u64) -> int
    decreases chunks.len(),
{
    if chunks.len() == 0 {
        0
    } else {
        let p = chunk_holding(chunks.drop_last(), x);
        if p < chunks.len() - 1 || chunk_covers(chunks.last(), x) {
            p
        } else {
            chunks.len() as int
        }
    }
}

/// A chunk that covers an address, with none before it that does, is the one
/// that holds it.
pub proof fn chunk_holding_unique(chunks: Seq<ChunkV>, x: u64, p: int)
    requires
        0 <= p <= chunks.len(),
        forall|j: int| 0 <= j < p ==> !chunk_covers(#[trigger] chunks[j], x),
        p < chunks.len() ==> chunk_covers(chunks[p], x),
    ensures
        chunk_holding(chunks, x) == p,
    decreases chunks.len(),
{
    if chunks.len() > 0 {
        if p == chunks.len() {
            chunk_holding_unique(chunks.drop_last(), x, p - 1);
            assert(!chunk_covers(chunks[p - 1], x));
        } else {
            chunk_holding_unique(chunks.drop_last(), x, p);
        }
    }
}

/// The chunk that holds an address covers it.
pub proof fn chunk_holding_covers(chunks: Seq<ChunkV>, x: u64)
    ensures
        0 <= chunk_holding(chunks, x) <= chunks.len(),
        chunk_holding(chunks, x) < chunks.len() ==> chunk_covers(
            chunks[chunk_holding(chunks, x)],
            x,
        ),
    decreases chunks.len(),
{
    if chunks.len() > 0 {
        chunk_holding_covers(chunks.drop_last(), x);
    }
}

/// An address that is mapped has at least one byte of its chunk ahead, and a
/// place on the device.
pub proof fn locate_reaches(chunks: Seq<ChunkV>, x: u64)
    ensures
        locate(chunks, x) matches Ok(y) ==> y.1 >= 1 && y.0.len() > 0,
{
    chunk_holding_covers(chunks, x);
}

/// Where each copy of the byte at `x` lives on the device, and how many bytes
/// from there on stay in the chunk.
pub open spec fn locate(chunks: Seq<ChunkV>, x: u64) -> Outcome<(Seq<u64>, u64)> {
    let p = chunk_holding(chunks, x);
    if p == chunks.len() {
        Err(Fault::CorruptFs("btrfs logical address is not mapped"@))
    } else {
        let c = chunks[p];
        if c.chunk_type & BLOCK_GROUP_STRIPED != 0 {
            Err(Fault::UnsupportedFsFeature("btrfs chunk spread over several devices"@))
        } else if c.stripes.len() == 0 {
            Err(Fault::CorruptFs("btrfs chunk without stripes"@))
        } else if exists|i: int|
            0 <= i < c.stripes.len() && (#[trigger] c.stripes[i]).offset + (x - c.logical)
                > u64::MAX {
            Err(Fault::CorruptFs("btrfs stripe past the end of the address space"@))
        } else {
            Ok(
                (
                    Seq::new(
                        c.stripes.len(),
                        |i: int| (c.stripes[i].offset + (x - c.logical)) as u64,
                    ),
                    (c.length - (x - c.logical)) as u64,
                ),
            )
        }
    }
}

/// The chunks of a filesystem in address order.
#[derive(Debug)]
pub struct ChunkMap {
    chunks: Vec<Chunk>,
}

impl View for ChunkMap {
    type V = Seq<ChunkV>;

    closed spec fn view(&self) -> Seq<ChunkV> {
        chunks_of(self.chunks@)
    }
}

impl Default for ChunkMap {
    fn default() -> (r: Self)
        ensures
            r@ == Seq::<ChunkV>::empty(),
    {
        let r = ChunkMap { chunks: Vec::new() };
        assert(r@ =~= Seq::<ChunkV>::empty());
        r
    }
}

impl Clone for ChunkMap {
    fn clone(&self) -> (r: Self)
        ensures
            r@ == self@,
    {
        let mut chunks: Vec<Chunk> = Vec::new();
        let mut i: usize = 0;
        while i < self.chunks.len()
            invariant
                i <= self.chunks@.len(),
                chunks_of(chunks@) == chunks_of(self.chunks@).take(i as int),
            decreases self.chunks@.len() - i,
        {
            let ghost before = chunks@;
            chunks.push(self.chunks[i].clone());
            proof {
                assert(chunks_of(chunks@) =~= chunks_of(before).push(self.chunks@[i as int]@));
                assert(chunks_of(chunks@) =~= chunks_of(self.chunks@).take(i + 1));
            }
            i += 1;
        }
        let r = ChunkMap { chunks };
        assert(r@ =~= self@);
        r
    }
}

impl ChunkMap {
    /// The chunks in address order.
    pub fn chunks(&self) -> (r: &Vec<Chunk>)
        ensures
            chunks_of(r@) == self@,
    {
        &self.chunks
    }

    /// Add a chunk in address order.
    pub fn insert(&mut self, chunk: Chunk)
        ensures
            final(self)@ == with_chunk(old(self)@, chunk@),
    {
        let ghost all = chunks_of(self.chunks@);
        let ghost before = self.chunks@;
        let mut i: usize = 0;
        while i < self.chunks.len() && self.chunks[i].logical < chunk.logical
            invariant
                i <= self.chunks@.len(),
                self.chunks@ == before,
                all == chunks_of(self.chunks@),
                forall|j: int| 0 <= j < i ==> (#[trigger] all[j]).logical < chunk@.logical,
            decreases self.chunks@.len() - i,
        {
            assert(all[i as int] == self.chunks@[i as int]@);
            i += 1;
        }
        proof {
            if i < before.len() {
                assert(all[i as int] == before[i as int]@);
            }
            chunk_slot_unique(all, chunk@.logical, i as int);
        }
        if i < self.chunks.len() && self.chunks[i].logical == chunk.logical {
            self.chunks.set(i, chunk);
            assert(chunks_of(self.chunks@) =~= all.update(i as int, chunk@));
        } else {
            self.chunks.insert(i, chunk);
            assert(chunks_of(self.chunks@) =~= all.insert(i as int, chunk@));
        }
    }

    /// Where every copy of `logical` lives and how long the run is.
    fn locate_exec(&self, logical: u64) -> (r: Result<(Vec<u64>, u64)>)
        ensures
            match r {
                Ok((v, n)) => locate(self@, logical) == Ok::<(Seq<u64>, u64), Fault>((v@, n))
                    && v@.len() > 0,
                Err(e) => locate(self@, logical) == Err::<(Seq<u64>, u64), Fault>(e@),
            },
    {
        let ghost all = chunks_of(self.chunks@);
        let mut i: usize = 0;
        let mut found: bool = false;
        while i < self.chunks.len() && !found
            invariant
                i <= self.chunks@.len(),
                all == chunks_of(self.chunks@),
                forall|j: int| 0 <= j < i ==> !chunk_covers(#[trigger] all[j], logical),
                found ==> i < all.len() && chunk_covers(all[i as int], logical),
            decreases self.chunks@.len() - i + (if found { 0int } else { 1int }),
        {
            assert(all[i as int] == self.chunks@[i as int]@);
            let c = &self.chunks[i];
            if c.logical <= logical && logical - c.logical < c.length {
                found = true;
            } else {
                i += 1;
            }
        }
        proof {
            chunk_holding_unique(all, logical, i as int);
        }
        if !found {
            return Err(LuksError::CorruptFs("btrfs logical address is not mapped"));
        }
        assert(all[i as int] == self.chunks@[i as int]@);
        let c = &self.chunks[i];
        if c.chunk_type & BLOCK_GROUP_STRIPED != 0 {
            return Err(
                LuksError::UnsupportedFsFeature(text("btrfs chunk spread over several devices")),
            );
        }
        if c.stripes.len() == 0 {
            return Err(LuksError::CorruptFs("btrfs chunk without stripes"));
        }
        let delta: u64 = logical - c.logical;
        let mut out: Vec<u64> = Vec::new();
        let mut k: usize = 0;
        while k < c.stripes.len()
            invariant
                k <= c.stripes@.len(),
                out@.len() == k,
                delta == logical - c.logical,
                c.logical <= logical,
                forall|j: int|
                    0 <= j < k ==> (#[trigger] c.stripes@[j]).offset + delta <= u64::MAX,
                forall|j: int|
                    0 <= j < k ==> #[trigger] out@[j] == c.stripes@[j].offset + delta,
                i < self.chunks@.len(),
                all == chunks_of(self.chunks@),
                all == self@,
                c == &self.chunks@[i as int],
                all[i as int] == c@,
                chunk_holding(all, logical) == i,
                c.chunk_type & BLOCK_GROUP_STRIPED == 0,
            decreases c.stripes@.len() - k,
        {
            let off: u64 = c.stripes[k].offset;
            if off > u64::MAX - delta {
                assert(c@.stripes[k as int].offset + delta > u64::MAX);
                return Err(
                    LuksError::CorruptFs("btrfs stripe past the end of the address space"),
                );
            }
            out.push(off + delta);
            k += 1;
        }
        let run: u64 = c.length - delta;
        assert(out@ =~= Seq::new(
            c@.stripes.len(),
            |j: int| (c@.stripes[j].offset + (logical - c@.logical)) as u64,
        ));
        Ok((out, run))
    }

    /// The device address of the first copy of `logical` and the bytes from
    /// there on that stay in the chunk.
    pub fn map(&self, logical: u64) -> (r: Result<(u64, u64)>)
        ensures
            match r {
                Ok((p, n)) => match locate(self@, logical) {
                    Ok((v, m)) => p == v[0] && n == m,
                    Err(_) => false,
                },
                Err(e) => locate(self@, logical) == Err::<(Seq<u64>, u64), Fault>(e@),
            },
    {
        let (v, n) = self.locate_exec(logical)?;
        Ok((v[0], n))
    }

    /// The device address of every copy of `logical`.
    pub fn map_all_stripes(&self, logical: u64) -> (r: Result<Vec<u64>>)
        ensures
            match r {
                Ok(w) => match locate(self@, logical) {
                    Ok((v, _)) => w@ == v,
                    Err(_) => false,
                },
                Err(e) => locate(self@, logical) == Err::<(Seq<u64>, u64), Fault>(e@),
            },
    {
        let (v, _) = self.locate_exec(logical)?;
        Ok(v)
    }
}

/// A range of the device given to a chunk.
#[derive(Debug, Clone, Copy, PartialEq, Eq)]
pub struct DevExtent {
    pub devid: u64,
    pub physical_offset: u64,
    pub chunk_offset: u64,
    pub length: u64,
    pub chunk_tree_uuid: [u8; 16],
}

/// The payload of a device extent item.
pub open spec fn dev_extent_bytes(chunk_offset: u64, length: u64, uuid: Seq<u8>) -> Seq<u8> {
    enc64(CHUNK_TREE_OBJECTID) + enc64(FIRST_CHUNK_TREE_OBJECTID) + enc64(chunk_offset) + enc64(
        length,
    ) + uuid
}

impl DevExtent {
    /// A device extent.
    pub fn new(
        devid: u64,
        physical_offset: u64,
        chunk_offset: u64,
        length: u64,
        chunk_tree_uuid: [u8; 16],
    ) -> (r: Self)
        ensures
            r == (DevExtent { devid, physical_offset, chunk_offset, length, chunk_tree_uuid }),
    {
        DevExtent { devid, physical_offset, chunk_offset, length, chunk_tree_uuid }
    }

    /// Decode a device extent item.
    pub fn parse(key: &Key, data: &[u8]) -> (r: Result<Self>)
        ensures
            match r {
                Ok(d) => {
                    &&& data@.len() >= 48
                    &&& d.devid == key.objectid
                    &&& d.physical_offset == key.offset
                    &&& d.chunk_offset == le64(data@, 16)
                    &&& d.length == le64(data@, 24)
                    &&& d.chunk_tree_uuid@ == data@.subrange(32, 48)
                },
                Err(e) => data@.len() < 48 && e@ == Fault::CorruptFs(
                    "btrfs device extent truncated"@,
                ),
            },
    {
        if data.len() < 48 {
            return Err(LuksError::CorruptFs("btrfs device extent truncated"));
        }
        Ok(
            DevExtent {
                devid: key.objectid,
                physical_offset: key.offset,
                chunk_offset: get_u64(data, 16),
                length: get_u64(data, 24),
                chunk_tree_uuid: get_array::<16>(data, 32),
            },
        )
    }

    /// The key and payload of this extent's item.
    pub fn emit(&self) -> (r: (Key, Vec<u8>))
        ensures
            r.0 == (Key {
                objectid: self.devid,
                item_type: DEV_EXTENT_KEY,
                offset: self.physical_offset,
            }),
            r.1@ == dev_extent_bytes(self.chunk_offset, self.length, self.chunk_tree_uuid@),
    {
        let mut v: Vec<u8> = Vec::new();
        append_u64(&mut v, CHUNK_TREE_OBJECTID);
        append_u64(&mut v, FIRST_CHUNK_TREE_OBJECTID);
        append_u64(&mut v, self.chunk_offset);
        append_u64(&mut v, self.length);
        append_bytes(&mut v, self.chunk_tree_uuid.as_slice());
        assert(v@ =~= dev_extent_bytes(self.chunk_offset, self.length, self.chunk_tree_uuid@));
        (Key::new(self.devid, DEV_EXTENT_KEY, self.physical_offset), v)
    }
}

} // verus!
