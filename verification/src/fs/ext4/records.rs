//! The on-disk format of directories: records that fill each block.

use vstd::prelude::*;

use crate::bytes::{has16, has32, le16_of_enc, le32_of_enc};
use crate::error::Fault;
use crate::fs::btrfs::write::payload::ceil_div;
use crate::fs::ext4::dir::{
    block_entries, entries_at, entries_upto, entry_here, raw_entries, type_given, RawV,
};
use crate::fs::ext4::layout::{
    block_bytes_at, block_is_read, file_end, file_maps, map_there, run_is_mapped,
};
use crate::fs::ext4::volume::{inode_of, Ext4V, InodeV};
use crate::fs::telling::{entry_tells_kind, kinds, mode_kinds, mode_tells_kind};
use crate::fs::FileType;

verus! {

/// A record of a directory. One without an inode is unused.
pub struct Record {
    pub inode: u32,
    /// How many bytes of the block the record takes up.
    pub room: int,
    pub kind: u8,
    pub name: Seq<u8>,
}

/// The record at `pos` of a block: the inode's number, the room it takes up, the
/// length of the name, the kind of file, and the name.
pub open spec fn stores_record(block: Seq<u8>, pos: int, r: Record) -> bool {
    &&& has32(block, pos, r.inode as int)
    &&& has16(block, pos + 4, r.room)
    &&& r.room % 4 == 0
    &&& r.room >= 8
    &&& pos + r.room <= block.len()
    &&& r.inode != 0 ==> {
        &&& r.name.len() <= 255
        &&& 8 + r.name.len() <= r.room
        &&& block[pos + 6] == r.name.len()
        &&& block[pos + 7] == r.kind
        &&& block.subrange(pos + 8, pos + 8 + r.name.len()) == r.name
    }
}

/// Records that fill a block from `pos` on.
pub open spec fn records_fill(block: Seq<u8>, pos: int, s: Seq<Record>) -> bool
    decreases s.len(),
{
    if s.len() == 0 {
        pos == block.len()
    } else {
        stores_record(block, pos, s[0]) && records_fill(block, pos + s[0].room, s.skip(1))
    }
}

/// Whether a record is for an entry that is listed: it is used, and its name is
/// neither one dot nor two.
pub open spec fn is_listed(r: Record) -> bool {
    r.inode != 0 && r.name != seq![0x2Eu8] && r.name != seq![0x2Eu8, 0x2Eu8]
}

/// The entries that records are for.
pub open spec fn entries_for(s: Seq<Record>) -> Seq<RawV>
    decreases s.len(),
{
    if s.len() == 0 {
        Seq::empty()
    } else if is_listed(s[0]) {
        seq![RawV { name: s[0].name, inode: s[0].inode as u64, kind: s[0].kind }] + entries_for(
            s.skip(1),
        )
    } else {
        entries_for(s.skip(1))
    }
}

/// A block lists the entries that its records are for.
pub proof fn block_reads_back(block: Seq<u8>, pos: int, s: Seq<Record>)
    requires
        records_fill(block, pos, s),
        pos >= 0,
    ensures
        block_entries(block, pos) == entries_for(s),
    decreases s.len(),
{
    if s.len() > 0 {
        let r = s[0];
        le32_of_enc(block, pos, r.inode);
        le16_of_enc(block, pos + 4, r.room as u16);
        block_reads_back(block, pos + r.room, s.skip(1));
        let here = entry_here(block, pos);
        if is_listed(r) {
            assert(here =~= seq![RawV { name: r.name, inode: r.inode as u64, kind: r.kind }]);
        } else {
            assert(here =~= Seq::<RawV>::empty());
            assert(here + entries_for(s.skip(1)) =~= entries_for(s.skip(1)));
        }
    }
}

/// A directory whose blocks are filled by `all`, block after block. A block that
/// is missing has no records.
pub open spec fn stores_directory(
    fs: Ext4V,
    dir: InodeV,
    m: Map<int, u64>,
    all: Seq<Seq<Record>>,
) -> bool {
    &&& dir.size == all.len() * fs.sb.block_size
    &&& all.len() <= file_end(fs, dir)
    &&& file_maps(fs, dir, m)
    &&& map_there(fs, m)
    &&& forall|l: int|
        0 <= l < all.len() ==> if m.contains_key(l) {
            records_fill(block_bytes_at(fs, m[l]), 0, #[trigger] all[l])
        } else {
            all[l].len() == 0
        }
}

/// The entries of all blocks.
pub open spec fn entries_for_all(all: Seq<Seq<Record>>) -> Seq<RawV>
    decreases all.len(),
{
    if all.len() == 0 {
        Seq::empty()
    } else {
        entries_for_all(all.drop_last()) + entries_for(all.last())
    }
}

proof fn leading_blocks_read_back(
    fs: Ext4V,
    dir: InodeV,
    m: Map<int, u64>,
    all: Seq<Seq<Record>>,
    n: int,
)
    requires
        fs.disk.len() <= u64::MAX,
        fs.sb.block_size >= 1024,
        stores_directory(fs, dir, m, all),
        0 <= n <= all.len(),
    ensures
        entries_upto(fs, dir, n as nat) == Ok::<Seq<RawV>, Fault>(entries_for_all(all.take(n))),
    decreases n,
{
    if n > 0 {
        let l = n - 1;
        leading_blocks_read_back(fs, dir, m, all, l);
        assert(all.take(n).drop_last() =~= all.take(l));
        assert(all.take(n).last() == all[l]);
        assert(l <= dir.size) by (nonlinear_arith)
            requires
                dir.size == all.len() * fs.sb.block_size,
                0 <= l < all.len(),
                fs.sb.block_size >= 1,
        ;
        run_is_mapped(fs, dir, m, l as u64);
        if m.contains_key(l) {
            block_is_read(fs, m[l]);
            block_reads_back(block_bytes_at(fs, m[l]), 0, all[l]);
        }
        assert(entries_at(fs, dir, l as u64) == Ok::<Seq<RawV>, Fault>(entries_for(all[l])));
    }
}

/// A directory lists the entries that the records in its blocks are for, in their
/// order, but the unused ones and those of `.` and `..`.
pub proof fn directory_reads_back(
    fs: Ext4V,
    dir: InodeV,
    m: Map<int, u64>,
    all: Seq<Seq<Record>>,
)
    requires
        fs.disk.len() <= u64::MAX,
        fs.sb.block_size >= 1024,
        stores_directory(fs, dir, m, all),
    ensures
        raw_entries(fs, dir) == Ok::<Seq<RawV>, Fault>(entries_for_all(all)),
{
    let n = all.len() as int;
    let bs = fs.sb.block_size as int;
    vstd::arithmetic::div_mod::lemma_div_multiples_vanish(n, bs);
    vstd::arithmetic::div_mod::lemma_mod_multiples_basic(n, bs);
    vstd::arithmetic::mul::lemma_mul_is_commutative(n, bs);
    assert(ceil_div(dir.size as int, bs) == n);
    leading_blocks_read_back(fs, dir, m, all, n);
    assert(all.take(n) =~= all);
}

/// An entry is listed with the kind that its record gives, where records give kinds
/// (feature bit 1), else with that of its inode.
pub proof fn listed_with_kind(fs: Ext4V, e: RawV, t: FileType)
    requires
        type_given(fs, true, e, t),
    ensures
        (fs.sb.feature_incompat / 2) % 2 == 1 ==> t == if e.kind < 8 {
            kinds()[e.kind as int]
        } else {
            FileType::Unknown
        },
        (fs.sb.feature_incompat / 2) % 2 == 0 ==> match inode_of(fs, e.inode) {
            Ok(i) => t == mode_kinds()[((i.mode / 4096) % 16) as int],
            Err(_) => t == FileType::Unknown,
        },
{
    let f = fs.sb.feature_incompat;
    assert((f & 2 != 0) == ((f / 2) % 2 == 1)) by (bit_vector);
    entry_tells_kind(e.kind);
    if let Ok(i) = inode_of(fs, e.inode) {
        mode_tells_kind(i.mode as u32);
    }
}

} // verus!
