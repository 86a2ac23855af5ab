//! The on-disk format of the superblock, the group descriptors and the inodes.
//!
//! What is stated here is where the format keeps each field; what is shown is
//! that a filesystem that was stored so mounts as what was stored, and that
//! every inode is found where its group's descriptor says.

use vstd::arithmetic::power2::pow2;
use vstd::prelude::*;

use crate::bytes::{enc_of_le16, enc_of_le32, has16, has32, le16_of_enc, le32_of_enc};
use crate::error::Fault;
use crate::fs::ext4::volume::{
    before_zero, info_of, inode_of, is_zero, mounted, parse_inode, parse_super, table_in, tables_in,
    Ext4V, InodeV, SuperV,
};
use crate::fs::lossy::lossy_text;
use crate::fs::{mode_type, FileInfo, FileType};
use crate::seqs::first_idx_is;

verus! {

/// A label in sixteen bytes, the rest of them zeros.
pub open spec fn has_label(d: Seq<u8>, o: int, label: Seq<u8>) -> bool {
    &&& label.len() <= 16
    &&& d.subrange(o, o + label.len()) == label
    &&& forall|i: int| 0 <= i < label.len() ==> #[trigger] label[i] != 0
    &&& forall|i: int| o + label.len() <= i < o + 16 ==> #[trigger] d[i] == 0
}

/// Whether block numbers have more than 32 bits.
pub open spec fn big(s: SuperV) -> bool {
    s.feature_incompat & 0x80 != 0
}

/// The 1024 bytes of a superblock of revision `rev` that says `s`; blocks have
/// `1024 * 2^log` bytes.
pub open spec fn stores_super(d: Seq<u8>, s: SuperV, log: nat, rev: u32, label: Seq<u8>) -> bool {
    &&& d.len() == 1024
    &&& log <= 6
    &&& s.block_size == 1024 * pow2(log)
    &&& has32(d, 0, s.inodes_count as int)
    &&& has32(d, 4, s.blocks_count as int % 0x1_0000_0000)
    &&& has32(d, 20, s.first_data_block as int)
    &&& has32(d, 24, log as int)
    &&& has32(d, 32, s.blocks_per_group as int)
    &&& has32(d, 40, s.inodes_per_group as int)
    &&& has16(d, 56, 0xEF53)
    &&& has32(d, 76, rev as int)
    &&& d.subrange(104, 120) == s.uuid
    &&& has_label(d, 120, label)
    &&& s.volume_name == lossy_text(label)
    &&& if rev == 0 {
        s.inode_size == 128 && s.feature_incompat == 0 && s.feature_ro_compat == 0 && s.desc_size
            == 0 && s.blocks_count < 0x1_0000_0000
    } else {
        &&& has16(d, 88, s.inode_size as int)
        &&& has32(d, 96, s.feature_incompat as int)
        &&& has32(d, 100, s.feature_ro_compat as int)
        &&& has16(d, 254, s.desc_size as int)
        &&& if big(s) {
            has32(d, 336, s.blocks_count as int / 0x1_0000_0000)
        } else {
            s.blocks_count < 0x1_0000_0000
        }
    }
}

/// A superblock that makes sense: inodes are not too small, and no group is
/// empty.
pub open spec fn sensible(s: SuperV) -> bool {
    s.inode_size >= 128 && s.blocks_per_group > 0 && s.inodes_per_group > 0
}

proof fn powers()
    ensures
        pow2(0) == 1,
        pow2(1) == 2,
        pow2(2) == 4,
        pow2(3) == 8,
        pow2(4) == 16,
        pow2(5) == 32,
        pow2(6) == 64,
{
    vstd::arithmetic::power2::lemma2_to64();
}

/// A superblock is decoded as what was stored.
pub proof fn super_reads_back(d: Seq<u8>, s: SuperV, log: nat, rev: u32, label: Seq<u8>)
    requires
        stores_super(d, s, log, rev, label),
        sensible(s),
    ensures
        parse_super(d) == Ok::<SuperV, Fault>(s),
{
    powers();
    le32_of_enc(d, 0, s.inodes_count);
    le32_of_enc(d, 4, (s.blocks_count % 0x1_0000_0000) as u32);
    le32_of_enc(d, 20, s.first_data_block);
    le32_of_enc(d, 24, log as u32);
    le32_of_enc(d, 32, s.blocks_per_group);
    le32_of_enc(d, 40, s.inodes_per_group);
    le16_of_enc(d, 56, 0xEF53);
    le32_of_enc(d, 76, rev);
    if rev > 0 {
        le16_of_enc(d, 88, s.inode_size);
        le32_of_enc(d, 96, s.feature_incompat);
        le32_of_enc(d, 100, s.feature_ro_compat);
        le16_of_enc(d, 254, s.desc_size);
        if big(s) {
            le32_of_enc(d, 336, (s.blocks_count / 0x1_0000_0000) as u32);
        }
    } else {
        assert(0u32 & 0x80 == 0) by (bit_vector);
    }
    let raw = d.subrange(120, 136);
    let n = label.len() as int;
    assert forall|i: int| 0 <= i < n implies !is_zero()(#[trigger] raw[i]) by {
        assert(d.subrange(120, 120 + n)[i] == label[i]);
        assert(label[i] != 0);
    }
    if n < 16 {
        assert(d[120 + n] == 0);
        assert(is_zero()(raw[n]));
    }
    first_idx_is(raw, is_zero(), n);
    assert(before_zero(raw) =~= label);
}

/// Bytes of a group descriptor.
pub open spec fn descriptor_size(s: SuperV) -> int {
    if big(s) && s.desc_size >= 64 {
        s.desc_size as int
    } else {
        32
    }
}

/// Where the group descriptors begin: in the block behind the one that holds the
/// superblock at byte 1024.
pub open spec fn descriptors_at(s: SuperV) -> int {
    if s.block_size == 1024 {
        2048
    } else {
        s.block_size as int
    }
}

/// The descriptor of group `g` says that its inode table begins at block
/// `table`.
pub open spec fn stores_group(disk: Seq<u8>, s: SuperV, g: int, table: u64) -> bool {
    let at = descriptors_at(s) + g * descriptor_size(s);
    &&& has32(disk, at + 8, table as int % 0x1_0000_0000)
    &&& if descriptor_size(s) >= 64 {
        has32(disk, at + 40, table as int / 0x1_0000_0000)
    } else {
        table < 0x1_0000_0000
    }
}

/// An image that holds a filesystem with superblock `s`, whose groups have their
/// inode tables at `tables`. The first block with data is the one that holds the
/// superblock; every group but the last is full.
pub open spec fn stores_filesystem(
    disk: Seq<u8>,
    s: SuperV,
    log: nat,
    rev: u32,
    label: Seq<u8>,
    tables: Seq<u64>,
) -> bool {
    let n = tables.len();
    &&& disk.len() >= 2048
    &&& stores_super(disk.subrange(1024, 2048), s, log, rev, label)
    &&& sensible(s)
    &&& s.first_data_block == if s.block_size == 1024 {
        1u32
    } else {
        0u32
    }
    &&& n > 0
    &&& (n - 1) * s.blocks_per_group < s.blocks_count - s.first_data_block
    &&& s.blocks_count - s.first_data_block <= n * s.blocks_per_group
    &&& descriptors_at(s) + n * descriptor_size(s) <= disk.len()
    &&& n * descriptor_size(s) <= usize::MAX
    &&& forall|g: int| 0 <= g < n ==> stores_group(disk, s, g, #[trigger] tables[g])
}

/// No feature that stands in the way of reading: no journal to replay or on
/// another device, no encryption, no descriptors spread over the device.
pub open spec fn plain_features(s: SuperV) -> bool {
    &&& s.feature_incompat & 0x4 == 0
    &&& s.feature_incompat & 0x8 == 0
    &&& s.feature_incompat & 0x10 == 0
    &&& s.feature_incompat & 0x1_0000 == 0
}

proof fn group_count(s: SuperV, n: int)
    requires
        sensible(s),
        n > 0,
        (n - 1) * s.blocks_per_group < s.blocks_count - s.first_data_block,
        s.blocks_count - s.first_data_block <= n * s.blocks_per_group,
    ensures
        s.groups() == n,
{
    let per = s.blocks_per_group as int;
    let x = s.blocks_count - s.first_data_block;
    assert((n - 1) * per >= 0) by (nonlinear_arith)
        requires
            n >= 1,
            per > 0,
    ;
    if x == n * per {
        vstd::arithmetic::div_mod::lemma_div_multiples_vanish(n, per);
        vstd::arithmetic::div_mod::lemma_mod_multiples_basic(n, per);
        vstd::arithmetic::mul::lemma_mul_is_commutative(n, per);
    } else {
        let r = x - (n - 1) * per;
        assert(n * per == (n - 1) * per + per) by (nonlinear_arith);
        vstd::arithmetic::mul::lemma_mul_is_commutative(n - 1, per);
        vstd::arithmetic::div_mod::lemma_fundamental_div_mod_converse(x, per, n - 1, r);
    }
}

/// An image that holds a filesystem mounts as what it holds: the superblock is
/// as it was stored, and so is where each group's inode table begins, for every
/// block size and every size of a descriptor.
pub proof fn filesystem_reads_back(
    disk: Seq<u8>,
    s: SuperV,
    log: nat,
    rev: u32,
    label: Seq<u8>,
    tables: Seq<u64>,
)
    requires
        stores_filesystem(disk, s, log, rev, label, tables),
        plain_features(s),
    ensures
        mounted(disk) == Ok::<Ext4V, Fault>(Ext4V { disk, sb: s, tables }),
{
    powers();
    super_reads_back(disk.subrange(1024, 2048), s, log, rev, label);
    let n = tables.len() as int;
    group_count(s, n);
    let size = descriptor_size(s);
    let at = descriptors_at(s);
    assert(s.descriptor_bytes() == size);
    let first = s.first_data_block as int;
    let bs = s.block_size as int;
    assert((first + 1) * bs == at) by (nonlinear_arith)
        requires
            bs == 1024 ==> first == 1 && at == 2048,
            bs != 1024 ==> first == 0 && at == bs,
    ;
    let d = disk.subrange(at, at + n * size);
    assert(tables_in(d, n, size) =~= tables) by {
        assert forall|g: int| 0 <= g < n implies table_in(d, g * size, size) == #[trigger] tables[g] by {
            let table = tables[g];
            let o = at + g * size;
            assert(stores_group(disk, s, g, tables[g]));
            assert(0 <= g * size && g * size + size <= n * size) by (nonlinear_arith)
                requires
                    0 <= g < n,
                    size > 0,
            ;
            assert(d.subrange(g * size + 8, g * size + 12) =~= disk.subrange(o + 8, o + 12));
            le32_of_enc(d, g * size + 8, (table % 0x1_0000_0000) as u32);
            if size >= 64 {
                assert(d.subrange(g * size + 40, g * size + 44) =~= disk.subrange(o + 40, o + 44));
                le32_of_enc(d, g * size + 40, (table / 0x1_0000_0000) as u32);
            }
        }
    }
}

/// The bytes of an inode that says `i`. Numbers of owners have their high halves
/// apart; only a regular file has a high half of its size.
pub open spec fn stores_inode(d: Seq<u8>, i: InodeV) -> bool {
    &&& d.len() >= 128
    &&& has16(d, 0, i.mode as int)
    &&& has16(d, 2, i.uid as int % 0x1_0000)
    &&& has16(d, 120, i.uid as int / 0x1_0000)
    &&& has16(d, 24, i.gid as int % 0x1_0000)
    &&& has16(d, 122, i.gid as int / 0x1_0000)
    &&& has32(d, 4, i.size as int % 0x1_0000_0000)
    &&& if i.mode / 0x1000 == 8 {
        has32(d, 108, i.size as int / 0x1_0000_0000)
    } else {
        i.size < 0x1_0000_0000
    }
    &&& has32(d, 8, i.atime as int)
    &&& has32(d, 12, i.ctime as int)
    &&& has32(d, 16, i.mtime as int)
    &&& has16(d, 26, i.links as int)
    &&& has32(d, 32, i.flags as int)
    &&& d.subrange(40, 100) == i.area
}

/// The kind of file that a mode stands for, by the number in its uppermost four
/// bits.
pub open spec fn kind_of_mode(mode: u16) -> FileType {
    let n = mode / 0x1000;
    if n == 1 {
        FileType::Fifo
    } else if n == 2 {
        FileType::CharDevice
    } else if n == 4 {
        FileType::Directory
    } else if n == 6 {
        FileType::BlockDevice
    } else if n == 8 {
        FileType::Regular
    } else if n == 10 {
        FileType::Symlink
    } else if n == 12 {
        FileType::Socket
    } else {
        FileType::Unknown
    }
}

/// The kind of a file is what the uppermost bits of its mode say.
pub proof fn mode_says_kind(mode: u16)
    ensures
        mode_type(mode as u32) == kind_of_mode(mode),
{
    let m = mode as u32;
    let f = m & 0xF000;
    assert(f == 0x1000 * (m / 0x1000)) by (bit_vector)
        requires
            f == m & 0xF000,
            m <= 0xFFFF,
    ;
}

/// An inode is decoded as what was stored.
pub proof fn inode_reads_back(d: Seq<u8>, i: InodeV)
    requires
        stores_inode(d, i),
    ensures
        parse_inode(i.number, d) == i,
{
    mode_says_kind(i.mode);
    le16_of_enc(d, 0, i.mode);
    le16_of_enc(d, 2, (i.uid % 0x1_0000) as u16);
    le16_of_enc(d, 120, (i.uid / 0x1_0000) as u16);
    le16_of_enc(d, 24, (i.gid % 0x1_0000) as u16);
    le16_of_enc(d, 122, (i.gid / 0x1_0000) as u16);
    le32_of_enc(d, 4, (i.size % 0x1_0000_0000) as u32);
    if i.mode / 0x1000 == 8 {
        le32_of_enc(d, 108, (i.size / 0x1_0000_0000) as u32);
    }
    le32_of_enc(d, 8, i.atime as u32);
    le32_of_enc(d, 12, i.ctime as u32);
    le32_of_enc(d, 16, i.mtime as u32);
    le16_of_enc(d, 26, i.links);
    le32_of_enc(d, 32, i.flags);
}

/// On an image that holds a filesystem, every inode is the one that is stored in
/// the table which its group's descriptor names: inode `k` of group `g`, counted
/// from zero, has number `g * inodes_per_group + k + 1`.
pub proof fn inode_is_found(
    disk: Seq<u8>,
    s: SuperV,
    log: nat,
    rev: u32,
    label: Seq<u8>,
    tables: Seq<u64>,
    g: int,
    k: int,
    i: InodeV,
)
    requires
        stores_filesystem(disk, s, log, rev, label, tables),
        plain_features(s),
        disk.len() <= u64::MAX,
        0 <= g < tables.len(),
        0 <= k < s.inodes_per_group,
        i.number == g * s.inodes_per_group + k + 1,
        i.number <= s.inodes_count,
        tables[g] * s.block_size + k * s.inode_size + s.inode_size <= disk.len(),
        stores_inode(
            disk.subrange(
                tables[g] * s.block_size + k * s.inode_size,
                tables[g] * s.block_size + k * s.inode_size + s.inode_size,
            ),
            i,
        ),
    ensures
        mounted(disk) matches Ok(fs) && inode_of(fs, i.number) == Ok::<InodeV, Fault>(i),
{
    filesystem_reads_back(disk, s, log, rev, label, tables);
    let per = s.inodes_per_group as int;
    let at = tables[g] * s.block_size + k * s.inode_size;
    vstd::arithmetic::mul::lemma_mul_is_commutative(g, per);
    vstd::arithmetic::div_mod::lemma_fundamental_div_mod_converse(i.number - 1, per, g, k);
    assert(at >= 0) by (nonlinear_arith)
        requires
            at == tables[g] * s.block_size + k * s.inode_size,
            k >= 0,
    ;
    inode_reads_back(disk.subrange(at, at + s.inode_size), i);
}

/// A filesystem is not mounted where its journal is to be replayed first (feature
/// bit 2), its journal is elsewhere (bit 3), its descriptors are spread (bit 4), or
/// its files are encrypted (bit 16).
pub proof fn unfit_is_not_mounted(disk: Seq<u8>)
    requires
        mounted(disk) is Ok,
    ensures
        ({
            let f = mounted(disk)->Ok_0.sb.feature_incompat;
            &&& (f / 4) % 2 == 0
            &&& (f / 8) % 2 == 0
            &&& (f / 16) % 2 == 0
            &&& (f / 0x1_0000) % 2 == 0
        }),
        mounted(disk)->Ok_0.disk == disk,
{
    let f = mounted(disk)->Ok_0.sb.feature_incompat;
    assert(f & 4 == 0 && f & 8 == 0 && f & 16 == 0 && f & 0x1_0000 == 0 ==> (f / 4) % 2 == 0 && (f
        / 8) % 2 == 0 && (f / 16) % 2 == 0 && (f / 0x1_0000) % 2 == 0) by (bit_vector);
}

/// What is told of a file is what its inode stores: the mode at byte 0, the access,
/// change and modification times at bytes 8, 12 and 16, the links at byte 26, and
/// the size and the owner, whose halves stand apart.
pub proof fn info_is_stored(number: u64, d: Seq<u8>, i: FileInfo)
    requires
        d.len() >= 128,
        i == info_of(parse_inode(number, d)),
    ensures
        has16(d, 0, i.mode as int),
        has32(d, 8, i.atime as int),
        has32(d, 12, i.ctime as int),
        has32(d, 16, i.mtime as int),
        has16(d, 26, i.links as int),
        has16(d, 2, (i.uid % 0x1_0000) as int) && has16(d, 120, (i.uid / 0x1_0000) as int),
        has16(d, 24, (i.gid % 0x1_0000) as int) && has16(d, 122, (i.gid / 0x1_0000) as int),
        has32(d, 4, (i.size % 0x1_0000_0000) as int),
        i.file_type == kind_of_mode(i.mode as u16),
{
    mode_says_kind(i.mode as u16);
    enc_of_le16(d, 0);
    enc_of_le32(d, 8);
    enc_of_le32(d, 12);
    enc_of_le32(d, 16);
    enc_of_le16(d, 26);
    enc_of_le16(d, 2);
    enc_of_le16(d, 120);
    enc_of_le16(d, 24);
    enc_of_le16(d, 122);
    enc_of_le32(d, 4);
}

} // verus!
