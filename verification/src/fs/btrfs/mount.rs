//! Mounting a volume.

use vstd::prelude::*;

use crate::bytes::{get_u64, le64};
use crate::device::ReadAt;
use crate::error::{Fault, LuksError, Outcome, Result};
use crate::fs::btrfs::chunk::{
    chunk_item_len, chunk_matches, stripe_matches, with_chunk, Chunk, ChunkMap, ChunkV,
};
use crate::fs::btrfs::roots::root_of;
use crate::fs::btrfs::superblock::{copies_possible, super_found, CopiesSeen, SuperV, Superblock};
use crate::fs::btrfs::tree::{items_of, Item, CHUNK_ITEM_KEY, FS_TREE_OBJECTID};
use crate::fs::btrfs::volume::{Btrfs, FsV, TreeRoot};
use crate::fs::btrfs::write::load::{all_items, walk_tree};

verus! {

/// The chunk that the item for `logical` at byte `o` of `d` describes.
pub open spec fn chunk_in(logical: u64, d: Seq<u8>, o: int) -> ChunkV {
    choose|c: ChunkV| chunk_matches(logical, d, o, c)
}

pub proof fn chunk_in_is(logical: u64, d: Seq<u8>, o: int, c: ChunkV)
    requires
        chunk_matches(logical, d, o, c),
    ensures
        chunk_in(logical, d, o) == c,
{
    let e = chunk_in(logical, d, o);
    assert(chunk_matches(logical, d, o, e));
    assert forall|i: int| 0 <= i < c.stripes.len() implies c.stripes[i] == e.stripes[i] by {
        let x = c.stripes[i];
        let y = e.stripes[i];
        assert(stripe_matches(d, o + 48 + 32 * i, x));
        assert(stripe_matches(d, o + 48 + 32 * i, y));
        assert(x.dev_uuid =~= y.dev_uuid);
    }
    assert(c.stripes =~= e.stripes);
}

/// The chunks in the system chunk array from byte `o` on, added to `chunks`.
/// Each is a key of 17 bytes and a chunk item.
pub open spec fn system_chunks(d: Seq<u8>, o: int, chunks: Seq<ChunkV>) -> Outcome<Seq<ChunkV>>
    decreases d.len() - o,
{
    if o < 0 || o >= d.len() {
        Ok(chunks)
    } else if o + 17 > d.len() || d[o + 8] != CHUNK_ITEM_KEY || chunk_item_len(d, o + 17) == 0 {
        Err(Fault::CorruptFs("btrfs system chunk array"@))
    } else {
        system_chunks(
            d,
            o + 17 + chunk_item_len(d, o + 17),
            with_chunk(chunks, chunk_in(le64(d, o + 9), d, o + 17)),
        )
    }
}

/// The chunks among items of the chunk tree, added to `chunks`.
pub open spec fn listed_chunks(items: Seq<Item>, chunks: Seq<ChunkV>) -> Outcome<Seq<ChunkV>>
    decreases items.len(),
{
    if items.len() == 0 {
        Ok(chunks)
    } else {
        match listed_chunks(items.drop_last(), chunks) {
            Err(e) => Err(e),
            Ok(s) => {
                let it = items.last();
                if it.key.item_type != CHUNK_ITEM_KEY {
                    Ok(s)
                } else if chunk_item_len(it.data, 0) == 0 {
                    Err(Fault::CorruptFs("btrfs chunk item truncated"@))
                } else {
                    Ok(with_chunk(s, chunk_in(it.key.offset, it.data, 0)))
                }
            },
        }
    }
}

proof fn listed_chunks_err(items: Seq<Item>, chunks: Seq<ChunkV>, n: int)
    requires
        0 <= n <= items.len(),
        listed_chunks(items.take(n), chunks) is Err,
    ensures
        listed_chunks(items, chunks) == listed_chunks(items.take(n), chunks),
    decreases items.len() - n,
{
    if n == items.len() {
        assert(items.take(n) =~= items);
    } else {
        assert(items.take(n + 1).drop_last() =~= items.take(n));
        listed_chunks_err(items, chunks, n + 1);
    }
}

/// A root that is not known yet.
pub open spec fn no_root() -> TreeRoot {
    TreeRoot { objectid: 0, bytenr: 0, generation: 0, root_dirid: 0, flags: 0, level: 0 }
}

/// The volume on a device with superblock `sb`: first the system chunks are
/// known, then the chunk tree, then the root of the default subvolume.
pub open spec fn mounted(disk: Seq<u8>, sb: SuperV) -> Outcome<FsV> {
    match system_chunks(sb.sys_chunks, 0, Seq::empty()) {
        Err(e) => Err(e),
        Ok(first) => {
            let a = FsV { disk, sb, chunks: first, fs_tree: no_root() };
            match all_items(a, sb.chunk_root) {
                Err(e) => Err(e),
                Ok(items) => match listed_chunks(items, first) {
                    Err(e) => Err(e),
                    Ok(chunks) => {
                        let b = FsV { chunks, ..a };
                        match root_of(b, FS_TREE_OBJECTID) {
                            Err(e) => Err(e),
                            Ok(fs_tree) => Ok(FsV { fs_tree, ..b }),
                        }
                    },
                },
            }
        },
    }
}

fn read_system_chunks(d: &Vec<u8>) -> (r: Result<ChunkMap>)
    ensures
        match r {
            Ok(m) => system_chunks(d@, 0, Seq::empty()) == Ok::<Seq<ChunkV>, Fault>(m@),
            Err(e) => system_chunks(d@, 0, Seq::empty()) == Err::<Seq<ChunkV>, Fault>(e@),
        },
{
    let b = d.as_slice();
    let n: usize = d.len();
    let mut map = ChunkMap::default();
    let mut o: usize = 0;
    assert(map@ =~= Seq::<ChunkV>::empty());
    while o < n
        invariant
            o <= n,
            n == d@.len(),
            b@ == d@,
            system_chunks(d@, 0, Seq::empty()) == system_chunks(d@, o as int, map@),
        decreases n - o,
    {
        if n - o < 17 {
            return Err(LuksError::CorruptFs("btrfs system chunk array"));
        }
        if d[o + 8] != CHUNK_ITEM_KEY {
            return Err(LuksError::CorruptFs("btrfs system chunk array"));
        }
        let logical: u64 = get_u64(b, o + 9);
        match Chunk::parse_at(logical, b, o + 17) {
            Err(_) => {
                return Err(LuksError::CorruptFs("btrfs system chunk array"));
            },
            Ok((c, len)) => {
                proof {
                    chunk_in_is(logical, d@, o + 17, c@);
                }
                map.insert(c);
                o = o + 17 + len;
            },
        }
    }
    Ok(map)
}

impl<D: ReadAt> Btrfs<D> {
    fn read_chunk_tree(&self) -> (r: Result<ChunkMap>)
        ensures
            match r {
                Ok(m) => all_items(self@, self@.sb.chunk_root) matches Ok(items) && listed_chunks(
                    items,
                    self@.chunks,
                ) == Ok::<Seq<ChunkV>, Fault>(m@),
                Err(e) => (match all_items(self@, self@.sb.chunk_root) {
                    Err(f) => e@ == f,
                    Ok(items) => listed_chunks(items, self@.chunks) == Err::<Seq<ChunkV>, Fault>(e@),
                }) || (!self.steady() && e@ is Io),
            },
    {
        let items = walk_tree(self, self.superblock().chunk_root)?;
        let ghost all = items_of(items@);
        let n: usize = items.len();
        let mut map = self.chunk_map().clone();
        let mut i: usize = 0;
        assert(all.take(0) =~= Seq::<Item>::empty());
        while i < n
            invariant
                i <= n,
                n == items@.len(),
                all == items_of(items@),
                all_items(self@, self@.sb.chunk_root) == Ok::<Seq<Item>, Fault>(all),
                listed_chunks(all.take(i as int), self@.chunks) == Ok::<Seq<ChunkV>, Fault>(map@),
            decreases n - i,
        {
            let it = &items[i];
            proof {
                assert(all.take(i + 1).drop_last() =~= all.take(i as int));
                assert(all.take(i + 1).last() == it@);
                if listed_chunks(all.take(i + 1), self@.chunks) is Err {
                    listed_chunks_err(all, self@.chunks, i + 1);
                }
            }
            if it.key.item_type == CHUNK_ITEM_KEY {
                let (c, _) = Chunk::parse_at(it.key.offset, it.data.as_slice(), 0)?;
                proof {
                    chunk_in_is(it.key.offset, it@.data, 0, c@);
                }
                map.insert(c);
            }
            i += 1;
        }
        assert(all.take(n as int) =~= all);
        Ok(map)
    }

    /// Mount the volume on a device whose superblock is known.
    pub fn mount_with(device: D, sb: Superblock) -> (r: Result<Self>)
        ensures
            match r {
                Ok(fs) => mounted(device.contents(), sb@) == Ok::<FsV, Fault>(fs@) && fs.steady()
                    == device.steady() && fs.batch() is None && !fs.writing(),
                Err(e) => mounted(device.contents(), sb@) == Err::<FsV, Fault>(e@) || (
                !device.steady() && e@ is Io),
            },
    {
        let first = read_system_chunks(&sb.sys_chunks)?;
        let none = TreeRoot {
            objectid: 0,
            bytenr: 0,
            generation: 0,
            root_dirid: 0,
            flags: 0,
            level: 0,
        };
        let mut fs = Btrfs::assemble(device, sb, first, none);
        let chunks = fs.read_chunk_tree()?;
        fs.set_chunks(chunks);
        let fs_tree = fs.tree_root(FS_TREE_OBJECTID)?;
        fs.set_fs_tree(fs_tree);
        Ok(fs)
    }

    /// Mount the volume on a device.
    pub fn mount(device: D) -> (r: Result<Self>)
        ensures
            exists|seen: CopiesSeen| #[trigger]
                copies_possible(device.steady(), seen) && match r {
                    Ok(fs) => super_found(device.contents(), seen) matches Some(sb) && mounted(
                        device.contents(),
                        sb,
                    ) == Ok::<FsV, Fault>(fs@),
                    Err(e) => match super_found(device.contents(), seen) {
                        None => e@ == Fault::CorruptFs("no valid btrfs superblock"@),
                        Some(sb) => mounted(device.contents(), sb) == Err::<FsV, Fault>(e@) || (
                        !device.steady() && e@ is Io),
                    },
                },
            r matches Ok(fs) ==> fs@.sb.wf() && fs.steady() == device.steady() && fs.batch() is None
                && !fs.writing(),
    {
        let found = Superblock::find(&device);
        let ghost seen = choose|seen: CopiesSeen| #[trigger]
            copies_possible(device.steady(), seen) && match found {
                Ok(s) => super_found(device.contents(), seen) == Some(s@),
                Err(e) => super_found(device.contents(), seen) is None && e@ == Fault::CorruptFs(
                    "no valid btrfs superblock"@,
                ),
            };
        assert(copies_possible(device.steady(), seen));
        let sb = found?;
        Btrfs::mount_with(device, sb)
    }
}

} // verus!
