//! The superblock, the group descriptors and the inodes.

use vstd::prelude::*;

use crate::bytes::{copy_range, get_array, get_u16, get_u32, le16, le32};
use crate::device::{image_read, ReadAt};
use crate::error::{text, tracks, Fault, LuksError, Outcome, Result};
use crate::fs::btrfs::write::payload::ceil_div;
use crate::fs::lossy::{lossy_text, text_of_bytes};
use crate::fs::{mode_type, type_of_mode, FileInfo, FileType};
use crate::seqs::{first_idx, first_idx_is};

verus! {

/// Where the superblock is.
pub const SUPERBLOCK_OFFSET: u64 = 1024;
/// The superblock's magic number.
pub const EXT4_MAGIC: u16 = 0xEF53;
/// The inode number of the root directory.
pub const ROOT_INODE: u64 = 2;

/// Directory entries record the type of their inode.
pub const INCOMPAT_FILETYPE: u32 = 0x0002;
/// The journal must be replayed.
pub const INCOMPAT_RECOVER: u32 = 0x0004;
/// The journal is on another device.
pub const INCOMPAT_JOURNAL_DEV: u32 = 0x0008;
/// Group descriptors are spread over the device.
pub const INCOMPAT_META_BG: u32 = 0x0010;
/// Block numbers have 64 bits.
pub const INCOMPAT_64BIT: u32 = 0x0080;
/// Files may be encrypted.
pub const INCOMPAT_ENCRYPT: u32 = 0x1_0000;

/// The inode's blocks are mapped by an extent tree.
pub const INODE_FL_EXTENTS: u32 = 0x0008_0000;
/// The inode holds its data itself.
pub const INODE_FL_INLINE_DATA: u32 = 0x1000_0000;

/// What is read of the superblock.
#[derive(Debug)]
pub struct Superblock {
    pub inodes_count: u32,
    pub blocks_count: u64,
    pub first_data_block: u32,
    pub block_size: u32,
    pub blocks_per_group: u32,
    pub inodes_per_group: u32,
    pub inode_size: u16,
    pub feature_incompat: u32,
    pub feature_ro_compat: u32,
    pub desc_size: u16,
    pub uuid: [u8; 16],
    pub volume_name: String,
}

/// The mathematical view of a [`Superblock`].
pub struct SuperV {
    pub inodes_count: u32,
    pub blocks_count: u64,
    pub first_data_block: u32,
    pub block_size: u32,
    pub blocks_per_group: u32,
    pub inodes_per_group: u32,
    pub inode_size: u16,
    pub feature_incompat: u32,
    pub feature_ro_compat: u32,
    pub desc_size: u16,
    pub uuid: Seq<u8>,
    pub volume_name: Seq<char>,
}

impl View for Superblock {
    type V = SuperV;

    open spec fn view(&self) -> SuperV {
        SuperV {
            inodes_count: self.inodes_count,
            blocks_count: self.blocks_count,
            first_data_block: self.first_data_block,
            block_size: self.block_size,
            blocks_per_group: self.blocks_per_group,
            inodes_per_group: self.inodes_per_group,
            inode_size: self.inode_size,
            feature_incompat: self.feature_incompat,
            feature_ro_compat: self.feature_ro_compat,
            desc_size: self.desc_size,
            uuid: self.uuid@,
            volume_name: self.volume_name@,
        }
    }
}

/// The block size for an exponent.
pub open spec fn block_bytes(log: u32) -> u32 {
    if log == 0 {
        1024
    } else if log == 1 {
        2048
    } else if log == 2 {
        4096
    } else if log == 3 {
        8192
    } else if log == 4 {
        16384
    } else if log == 5 {
        32768
    } else {
        65536
    }
}

/// The block size for an exponent of six at most.
pub fn block_size_of(log: u32) -> (r: u32)
    ensures
        r == block_bytes(log),
        1024 <= r <= 65536,
{
    if log == 0 {
        1024
    } else if log == 1 {
        2048
    } else if log == 2 {
        4096
    } else if log == 3 {
        8192
    } else if log == 4 {
        16384
    } else if log == 5 {
        32768
    } else {
        65536
    }
}

/// A number of two 32-bit halves.
pub open spec fn wide(lo: u32, hi: u32) -> u64 {
    (lo + hi * 0x1_0000_0000) as u64
}

/// A number of two 32-bit halves.
pub fn join_halves(lo: u32, hi: u32) -> (r: u64)
    ensures
        r == wide(lo, hi),
{
    lo as u64 + hi as u64 * 0x1_0000_0000
}

/// Bytes that end a text.
pub open spec fn is_zero() -> spec_fn(u8) -> bool {
    |c: u8| c == 0
}

/// The bytes before the first zero.
pub open spec fn before_zero(s: Seq<u8>) -> Seq<u8> {
    s.take(first_idx(s, is_zero()))
}

/// A superblock, decoded. Revision 0 has no features and inodes of 128 bytes.
pub open spec fn parse_super(b: Seq<u8>) -> Outcome<SuperV> {
    let rev1 = le32(b, 76) >= 1;
    let inode_size = if rev1 {
        le16(b, 88)
    } else {
        128
    };
    let incompat = if rev1 {
        le32(b, 96)
    } else {
        0
    };
    if le16(b, 56) != EXT4_MAGIC {
        Err(Fault::NotExt4(le16(b, 56)))
    } else if le32(b, 24) > 6 {
        Err(Fault::CorruptFs("implausible block size"@))
    } else if inode_size < 128 {
        Err(Fault::CorruptFs("inode size below 128"@))
    } else if le32(b, 40) == 0 || le32(b, 32) == 0 {
        Err(Fault::CorruptFs("zero inodes or blocks per group"@))
    } else {
        Ok(
            SuperV {
                inodes_count: le32(b, 0),
                blocks_count: wide(
                    le32(b, 4),
                    if incompat & INCOMPAT_64BIT != 0 {
                        le32(b, 336)
                    } else {
                        0
                    },
                ),
                first_data_block: le32(b, 20),
                block_size: block_bytes(le32(b, 24)),
                blocks_per_group: le32(b, 32),
                inodes_per_group: le32(b, 40),
                inode_size,
                feature_incompat: incompat,
                feature_ro_compat: if rev1 {
                    le32(b, 100)
                } else {
                    0
                },
                desc_size: if rev1 {
                    le16(b, 254)
                } else {
                    0
                },
                uuid: b.subrange(104, 120),
                volume_name: lossy_text(before_zero(b.subrange(120, 136))),
            },
        )
    }
}

impl SuperV {
    /// What a decoded superblock promises.
    pub open spec fn wf(self) -> bool {
        &&& 1024 <= self.block_size <= 65536
        &&& self.block_size % 1024 == 0
        &&& self.inode_size >= 128
        &&& self.inodes_per_group > 0
        &&& self.blocks_per_group > 0
    }

    /// Bytes of a group descriptor.
    pub open spec fn descriptor_bytes(self) -> int {
        if self.feature_incompat & INCOMPAT_64BIT != 0 && self.desc_size >= 64 {
            self.desc_size as int
        } else {
            32
        }
    }

    /// How many block groups there are.
    pub open spec fn groups(self) -> int {
        ceil_div(
            if self.blocks_count >= self.first_data_block {
                self.blocks_count - self.first_data_block
            } else {
                0
            },
            self.blocks_per_group as int,
        )
    }
}

fn zero_at(v: &Vec<u8>) -> (i: usize)
    ensures
        i == first_idx(v@, is_zero()),
        i <= v@.len(),
{
    let n: usize = v.len();
    let mut i: usize = 0;
    while i < n
        invariant
            i <= n,
            n == v@.len(),
            forall|j: int| 0 <= j < i ==> !is_zero()(#[trigger] v@[j]),
        decreases n - i,
    {
        if v[i] == 0 {
            proof {
                first_idx_is(v@, is_zero(), i as int);
            }
            return i;
        }
        i += 1;
    }
    proof {
        first_idx_is(v@, is_zero(), n as int);
    }
    n
}

impl Superblock {
    /// Decode a superblock.
    pub fn parse(b: &[u8]) -> (r: Result<Self>)
        requires
            b@.len() >= 1024,
        ensures
            match r {
                Ok(s) => parse_super(b@) == Ok::<SuperV, Fault>(s@) && s@.wf(),
                Err(e) => parse_super(b@) == Err::<SuperV, Fault>(e@),
            },
    {
        let magic: u16 = get_u16(b, 56);
        if magic != EXT4_MAGIC {
            return Err(LuksError::NotExt4(magic));
        }
        let log: u32 = get_u32(b, 24);
        if log > 6 {
            return Err(LuksError::CorruptFs("implausible block size"));
        }
        let rev1: bool = get_u32(b, 76) >= 1;
        let inode_size: u16 = if rev1 {
            get_u16(b, 88)
        } else {
            128
        };
        if inode_size < 128 {
            return Err(LuksError::CorruptFs("inode size below 128"));
        }
        let incompat: u32 = if rev1 {
            get_u32(b, 96)
        } else {
            0
        };
        let ro_compat: u32 = if rev1 {
            get_u32(b, 100)
        } else {
            0
        };
        let desc_size: u16 = if rev1 {
            get_u16(b, 254)
        } else {
            0
        };
        let hi: u32 = if incompat & INCOMPAT_64BIT != 0 {
            get_u32(b, 336)
        } else {
            0
        };
        let inodes_per_group: u32 = get_u32(b, 40);
        let blocks_per_group: u32 = get_u32(b, 32);
        if inodes_per_group == 0 || blocks_per_group == 0 {
            return Err(LuksError::CorruptFs("zero inodes or blocks per group"));
        }
        let name = copy_range(b, 120, 136);
        let end: usize = zero_at(&name);
        let label = copy_range(name.as_slice(), 0, end);
        assert(label@ =~= before_zero(b@.subrange(120, 136)));
        Ok(
            Superblock {
                inodes_count: get_u32(b, 0),
                blocks_count: join_halves(get_u32(b, 4), hi),
                first_data_block: get_u32(b, 20),
                block_size: block_size_of(log),
                blocks_per_group,
                inodes_per_group,
                inode_size,
                feature_incompat: incompat,
                feature_ro_compat: ro_compat,
                desc_size,
                uuid: get_array::<16>(b, 104),
                volume_name: text_of_bytes(label.as_slice()),
            },
        )
    }

    fn descriptor_size(&self) -> (r: usize)
        ensures
            r == self@.descriptor_bytes(),
            r >= 32,
    {
        if self.feature_incompat & INCOMPAT_64BIT != 0 && self.desc_size >= 64 {
            self.desc_size as usize
        } else {
            32
        }
    }

    fn group_count(&self) -> (r: u64)
        requires
            self@.wf(),
        ensures
            r == self@.groups(),
    {
        let per: u64 = self.blocks_per_group as u64;
        let n: u64 = self.blocks_count.saturating_sub(self.first_data_block as u64);
        let q: u64 = n / per;
        proof {
            vstd::arithmetic::div_mod::lemma_fundamental_div_mod(n as int, per as int);
            if per == 1 {
                assert(n % per == 0) by (nonlinear_arith)
                    requires
                        per == 1,
                ;
            } else if n % per != 0 {
                assert(q < n) by (nonlinear_arith)
                    requires
                        per >= 2,
                        n == per * q + n % per,
                        n % per != 0,
                        0 <= n % per,
                        q >= 0,
                ;
            }
        }
        if n % per == 0 {
            q
        } else {
            q + 1
        }
    }
}

/// An inode: what is known of a file, and where its blocks are.
#[derive(Debug)]
pub struct Inode {
    pub number: u64,
    pub mode: u16,
    pub uid: u32,
    pub gid: u32,
    pub size: u64,
    pub links: u16,
    pub flags: u32,
    pub atime: i64,
    pub ctime: i64,
    pub mtime: i64,
    /// An extent tree, block pointers, or the data itself.
    pub block_area: [u8; 60],
}

/// The mathematical view of an [`Inode`].
pub struct InodeV {
    pub number: u64,
    pub mode: u16,
    pub uid: u32,
    pub gid: u32,
    pub size: u64,
    pub links: u16,
    pub flags: u32,
    pub atime: i64,
    pub ctime: i64,
    pub mtime: i64,
    pub area: Seq<u8>,
}

impl View for Inode {
    type V = InodeV;

    open spec fn view(&self) -> InodeV {
        InodeV {
            number: self.number,
            mode: self.mode,
            uid: self.uid,
            gid: self.gid,
            size: self.size,
            links: self.links,
            flags: self.flags,
            atime: self.atime,
            ctime: self.ctime,
            mtime: self.mtime,
            area: self.block_area@,
        }
    }
}

impl InodeV {
    /// What kind of file this is.
    pub open spec fn kind(self) -> FileType {
        mode_type(self.mode as u32)
    }

    /// Whether an extent tree maps the blocks.
    pub open spec fn extents(self) -> bool {
        self.flags & INODE_FL_EXTENTS != 0
    }

    /// Whether the inode holds its data itself.
    pub open spec fn inline_data(self) -> bool {
        self.flags & INODE_FL_INLINE_DATA != 0
    }
}

/// What is known of a file.
pub open spec fn info_of(i: InodeV) -> FileInfo {
    FileInfo {
        size: i.size,
        mode: i.mode as u32,
        uid: i.uid,
        gid: i.gid,
        links: i.links as u32,
        file_type: i.kind(),
        atime: i.atime,
        mtime: i.mtime,
        ctime: i.ctime,
    }
}

impl Inode {
    /// What kind of file this is.
    pub fn file_type(&self) -> (r: FileType)
        ensures
            r == self@.kind(),
    {
        type_of_mode(self.mode as u32)
    }

    /// What is known of the file.
    pub fn info(&self) -> (r: FileInfo)
        ensures
            r == info_of(self@),
    {
        FileInfo {
            size: self.size,
            mode: self.mode as u32,
            uid: self.uid,
            gid: self.gid,
            links: self.links as u32,
            file_type: self.file_type(),
            atime: self.atime,
            mtime: self.mtime,
            ctime: self.ctime,
        }
    }
}

/// An inode of at least 128 bytes, decoded. Only a regular file uses the high
/// half of the size.
pub open spec fn parse_inode(number: u64, d: Seq<u8>) -> InodeV {
    InodeV {
        number,
        mode: le16(d, 0),
        uid: (le16(d, 2) + le16(d, 120) * 65536) as u32,
        gid: (le16(d, 24) + le16(d, 122) * 65536) as u32,
        size: wide(
            le32(d, 4),
            if mode_type(le16(d, 0) as u32) == FileType::Regular {
                le32(d, 108)
            } else {
                0
            },
        ),
        links: le16(d, 26),
        flags: le32(d, 32),
        atime: le32(d, 8) as i64,
        ctime: le32(d, 12) as i64,
        mtime: le32(d, 16) as i64,
        area: d.subrange(40, 100),
    }
}

fn decode_inode(number: u64, d: &[u8]) -> (r: Inode)
    requires
        d@.len() >= 128,
    ensures
        r@ == parse_inode(number, d@),
{
    let mode: u16 = get_u16(d, 0);
    let hi: u32 = if type_of_mode(mode as u32).is_file() {
        get_u32(d, 108)
    } else {
        0
    };
    Inode {
        number,
        mode,
        uid: get_u16(d, 2) as u32 + get_u16(d, 120) as u32 * 65536,
        gid: get_u16(d, 24) as u32 + get_u16(d, 122) as u32 * 65536,
        size: join_halves(get_u32(d, 4), hi),
        links: get_u16(d, 26),
        flags: get_u32(d, 32),
        atime: get_u32(d, 8) as i64,
        ctime: get_u32(d, 12) as i64,
        mtime: get_u32(d, 16) as i64,
        block_area: get_array::<60>(d, 40),
    }
}

/// The mathematical view of a mounted filesystem.
pub struct Ext4V {
    pub disk: Seq<u8>,
    pub sb: SuperV,
    /// Where the inode table of each group begins.
    pub tables: Seq<u64>,
}

/// What a read of `len` bytes at `at` finds; no device reaches past 64-bit
/// addresses.
pub open spec fn read_from(disk: Seq<u8>, at: int, len: int) -> Outcome<Seq<u8>> {
    if at > u64::MAX {
        Err(Fault::Io)
    } else {
        image_read(disk, at, len)
    }
}

/// Block `n` of the filesystem.
pub open spec fn block_of(fs: Ext4V, n: u64) -> Outcome<Seq<u8>> {
    if n >= fs.sb.blocks_count {
        Err(Fault::CorruptFs("block pointer past end of filesystem"@))
    } else {
        read_from(fs.disk, n * fs.sb.block_size, fs.sb.block_size as int)
    }
}

/// Inode `ino`.
pub open spec fn inode_of(fs: Ext4V, ino: u64) -> Outcome<InodeV> {
    let group = (ino - 1) / fs.sb.inodes_per_group as int;
    let index = (ino - 1) % fs.sb.inodes_per_group as int;
    if ino == 0 || ino > fs.sb.inodes_count || group >= fs.tables.len() {
        Err(Fault::BadInode(ino))
    } else {
        match read_from(
            fs.disk,
            fs.tables[group] * fs.sb.block_size + index * fs.sb.inode_size,
            fs.sb.inode_size as int,
        ) {
            Err(e) => Err(e),
            Ok(d) => Ok(parse_inode(ino, d)),
        }
    }
}

/// The inode table of the group with descriptor `d`.
pub open spec fn table_in(d: Seq<u8>, at: int, size: int) -> u64 {
    wide(
        le32(d, at + 8),
        if size >= 64 {
            le32(d, at + 40)
        } else {
            0
        },
    )
}

/// The inode tables that group descriptors name.
pub open spec fn tables_in(d: Seq<u8>, groups: int, size: int) -> Seq<u64> {
    Seq::new(groups as nat, |g: int| table_in(d, g * size, size))
}

/// The inode tables of a filesystem. The descriptors begin in the block after
/// the superblock.
pub open spec fn tables_of(disk: Seq<u8>, sb: SuperV) -> Outcome<Seq<u64>> {
    let size = sb.descriptor_bytes();
    let total = sb.groups() * size;
    if total > usize::MAX {
        Err(Fault::CorruptFs("group descriptor table too large"@))
    } else {
        match image_read(disk, (sb.first_data_block + 1) * sb.block_size, total) {
            Err(e) => Err(e),
            Ok(d) => Ok(tables_in(d, sb.groups(), size)),
        }
    }
}

/// Why a filesystem cannot be read correctly.
pub open spec fn mount_refusal(sb: SuperV) -> Option<Fault> {
    if sb.feature_incompat & INCOMPAT_RECOVER != 0 {
        Some(Fault::FsNeedsRecovery)
    } else if sb.feature_incompat & INCOMPAT_ENCRYPT != 0 {
        Some(Fault::UnsupportedFsFeature("fscrypt per-file encryption"@))
    } else if sb.feature_incompat & INCOMPAT_JOURNAL_DEV != 0 {
        Some(Fault::UnsupportedFsFeature("external journal device"@))
    } else if sb.feature_incompat & INCOMPAT_META_BG != 0 {
        Some(Fault::UnsupportedFsFeature("meta_bg layout"@))
    } else {
        None
    }
}

/// The filesystem on a device.
pub open spec fn mounted(disk: Seq<u8>) -> Outcome<Ext4V> {
    match image_read(disk, SUPERBLOCK_OFFSET as int, 1024) {
        Err(e) => Err(e),
        Ok(raw) => match parse_super(raw) {
            Err(e) => Err(e),
            Ok(sb) => match mount_refusal(sb) {
                Some(e) => Err(e),
                None => match tables_of(disk, sb) {
                    Err(e) => Err(e),
                    Ok(tables) => Ok(Ext4V { disk, sb, tables }),
                },
            },
        },
    }
}

/// A mounted ext2, ext3 or ext4 filesystem.
#[derive(Debug)]
pub struct Ext4<D> {
    device: D,
    sb: Superblock,
    inode_tables: Vec<u64>,
}

impl<D: ReadAt> View for Ext4<D> {
    type V = Ext4V;

    closed spec fn view(&self) -> Ext4V {
        Ext4V { disk: self.device.contents(), sb: self.sb@, tables: self.inode_tables@ }
    }
}

fn read_tables<D: ReadAt>(device: &D, sb: &Superblock) -> (r: Result<Vec<u64>>)
    requires
        sb@.wf(),
    ensures
        tracks(device.steady(), r, tables_of(device.contents(), sb@)),
{
    let groups: u64 = sb.group_count();
    let size: usize = sb.descriptor_size();
    let ghost n = sb@.groups();
    let total: u64 = match groups.checked_mul(size as u64) {
        Some(t) => t,
        None => {
            return Err(LuksError::CorruptFs("group descriptor table too large"));
        },
    };
    if total > usize::MAX as u64 {
        return Err(LuksError::CorruptFs("group descriptor table too large"));
    }
    proof {
        assert((sb.first_data_block + 1) * sb.block_size <= 0x1_0000_0000 * 65536)
            by (nonlinear_arith)
            requires
                sb.first_data_block + 1 <= 0x1_0000_0000,
                sb.block_size <= 65536,
        ;
    }
    let at: u64 = (sb.first_data_block as u64 + 1) * sb.block_size as u64;
    let d = device.read_at(at, total as usize)?;
    let mut tables: Vec<u64> = Vec::new();
    let mut g: u64 = 0;
    while g < groups
        invariant
            g <= groups,
            groups == n,
            d@.len() == total,
            total == groups * size,
            size >= 32,
            size == sb@.descriptor_bytes(),
            tables@ =~= tables_in(d@, g as int, size as int),
        decreases groups - g,
    {
        proof {
            assert(g * size + size <= groups * size) by (nonlinear_arith)
                requires
                    g + 1 <= groups,
                    size >= 0,
            ;
            assert(g * size >= g) by (nonlinear_arith)
                requires
                    g >= 0,
                    size >= 1,
            ;
        }
        let dlen: usize = d.len();
        assert(g * size + size <= dlen);
        let o: usize = g as usize * size;
        let hi: u32 = if size >= 64 {
            get_u32(d.as_slice(), o + 40)
        } else {
            0
        };
        tables.push(join_halves(get_u32(d.as_slice(), o + 8), hi));
        g += 1;
    }
    Ok(tables)
}

impl<D: ReadAt> Ext4<D> {
    /// Whether the device never fails a transfer within its bounds.
    pub closed spec fn steady(&self) -> bool {
        self.device.steady()
    }

    /// Read the superblock and the group descriptors. A filesystem that cannot
    /// be read correctly is refused.
    pub fn mount(device: D) -> (r: Result<Self>)
        ensures
            tracks(device.steady(), r, mounted(device.contents())),
            r matches Ok(fs) ==> fs@.sb.wf() && fs.steady() == device.steady(),
    {
        let raw = device.read_at(SUPERBLOCK_OFFSET, 1024)?;
        let sb = Superblock::parse(raw.as_slice())?;
        if sb.feature_incompat & INCOMPAT_RECOVER != 0 {
            return Err(LuksError::FsNeedsRecovery);
        }
        if sb.feature_incompat & INCOMPAT_ENCRYPT != 0 {
            return Err(LuksError::UnsupportedFsFeature(text("fscrypt per-file encryption")));
        }
        if sb.feature_incompat & INCOMPAT_JOURNAL_DEV != 0 {
            return Err(LuksError::UnsupportedFsFeature(text("external journal device")));
        }
        if sb.feature_incompat & INCOMPAT_META_BG != 0 {
            return Err(LuksError::UnsupportedFsFeature(text("meta_bg layout")));
        }
        let inode_tables = read_tables(&device, &sb)?;
        Ok(Ext4 { device, sb, inode_tables })
    }

    /// The superblock.
    pub fn superblock(&self) -> (r: &Superblock)
        ensures
            r@ == self@.sb,
    {
        &self.sb
    }

    /// Bytes of a block.
    pub fn block_size(&self) -> (r: u32)
        ensures
            r == self@.sb.block_size,
    {
        self.sb.block_size
    }

    /// The name of the volume.
    pub fn volume_name(&self) -> (r: &str)
        ensures
            r@ == self@.sb.volume_name,
    {
        self.sb.volume_name.as_str()
    }

    /// The uuid of the volume.
    pub fn uuid(&self) -> (r: [u8; 16])
        ensures
            r@ == self@.sb.uuid,
    {
        self.sb.uuid
    }

    /// Read `len` bytes at byte `within` of block `n`.
    pub(crate) fn read_bytes(&self, n: u64, within: u64, len: usize) -> (r: Result<Vec<u8>>)
        requires
            self@.sb.wf(),
        ensures
            tracks(
                self.steady(),
                r,
                read_from(self@.disk, n * self@.sb.block_size + within, len as int),
            ),
    {
        let at: u64 = match n.checked_mul(self.sb.block_size as u64) {
            Some(b) => match b.checked_add(within) {
                Some(x) => x,
                None => {
                    return Err(LuksError::Io);
                },
            },
            None => {
                return Err(LuksError::Io);
            },
        };
        self.device.read_at(at, len)
    }

    /// Read block `n`.
    pub(crate) fn read_block(&self, n: u64) -> (r: Result<Vec<u8>>)
        requires
            self@.sb.wf(),
        ensures
            tracks(self.steady(), r, block_of(self@, n)),
    {
        if n >= self.sb.blocks_count {
            return Err(LuksError::CorruptFs("block pointer past end of filesystem"));
        }
        self.read_bytes(n, 0, self.sb.block_size as usize)
    }

    /// Read inode `ino`.
    pub fn read_inode(&self, ino: u64) -> (r: Result<Inode>)
        requires
            self@.sb.wf(),
        ensures
            tracks(self.steady(), r, inode_of(self@, ino)),
    {
        if ino == 0 || ino > self.sb.inodes_count as u64 {
            return Err(LuksError::BadInode(ino));
        }
        let per: u64 = self.sb.inodes_per_group as u64;
        let group: u64 = (ino - 1) / per;
        let index: u64 = (ino - 1) % per;
        if group >= self.inode_tables.len() as u64 {
            return Err(LuksError::BadInode(ino));
        }
        let table: u64 = self.inode_tables[group as usize];
        proof {
            assert(index * self.sb.inode_size <= 0xFFFF_FFFF * 0xFFFF) by (nonlinear_arith)
                requires
                    index <= 0xFFFF_FFFF,
                    self.sb.inode_size <= 0xFFFF,
            ;
        }
        let within: u64 = index * self.sb.inode_size as u64;
        let raw = self.read_bytes(table, within, self.sb.inode_size as usize)?;
        Ok(decode_inode(ino, raw.as_slice()))
    }
}

} // verus!
