//! The superblock: the anchor of a filesystem, kept in up to three copies.

use vstd::prelude::*;

use crate::bytes::{
    append_bytes, bytes_eq, copy_bytes, copy_range, enc64, get_array, get_u16, get_u32, get_u64, le16,
    le32, le64, put_u64, splice,
};
use crate::device::{image_read, ReadAt};
use crate::error::{text, Fault, LuksError, Outcome, Result};
use crate::fs::btrfs::tree::{csum_field, CsumType};

verus! {

/// Bytes of one superblock copy.
pub const SUPER_SIZE: usize = 4096;
/// Device offset of the primary superblock.
pub const SUPER_OFFSET_0: u64 = 0x1_0000;
/// Device offset of the first mirror.
pub const SUPER_OFFSET_1: u64 = 0x400_0000;
/// Device offset of the second mirror.
pub const SUPER_OFFSET_2: u64 = 0x40_0000_0000;
/// "_BHRfS_M" as a little-endian number.
pub const SUPER_MAGIC: u64 = 0x4D5F_5366_5248_425F;

pub const BTRFS_FEATURE_COMPAT_RO_FREE_SPACE_TREE: u64 = 1;
pub const BTRFS_FEATURE_COMPAT_RO_FREE_SPACE_TREE_VALID: u64 = 2;
pub const BTRFS_FEATURE_INCOMPAT_SKINNY_METADATA: u64 = 0x100;
pub const BTRFS_FEATURE_INCOMPAT_METADATA_UUID: u64 = 0x400;

/// A decoded superblock.
#[derive(Debug)]
pub struct Superblock {
    pub csum_type: CsumType,
    pub metadata_uuid: [u8; 16],
    pub generation: u64,
    pub root: u64,
    pub root_level: u8,
    pub chunk_root: u64,
    pub chunk_root_level: u8,
    pub chunk_root_generation: u64,
    pub log_root: u64,
    pub total_bytes: u64,
    pub bytes_used: u64,
    pub num_devices: u64,
    pub sector_size: u32,
    pub node_size: u32,
    pub compat_ro_flags: u64,
    pub incompat_flags: u64,
    pub dev_id: u64,
    pub sys_chunks: Vec<u8>,
}

/// The mathematical view of a [`Superblock`].
pub struct SuperV {
    pub csum_type: CsumType,
    pub metadata_uuid: Seq<u8>,
    pub generation: u64,
    pub root: u64,
    pub root_level: u8,
    pub chunk_root: u64,
    pub chunk_root_level: u8,
    pub chunk_root_generation: u64,
    pub log_root: u64,
    pub total_bytes: u64,
    pub bytes_used: u64,
    pub num_devices: u64,
    pub sector_size: u32,
    pub node_size: u32,
    pub compat_ro_flags: u64,
    pub incompat_flags: u64,
    pub dev_id: u64,
    pub sys_chunks: Seq<u8>,
}

impl View for Superblock {
    type V = SuperV;

    open spec fn view(&self) -> SuperV {
        SuperV {
            csum_type: self.csum_type,
            metadata_uuid: self.metadata_uuid@,
            generation: self.generation,
            root: self.root,
            root_level: self.root_level,
            chunk_root: self.chunk_root,
            chunk_root_level: self.chunk_root_level,
            chunk_root_generation: self.chunk_root_generation,
            log_root: self.log_root,
            total_bytes: self.total_bytes,
            bytes_used: self.bytes_used,
            num_devices: self.num_devices,
            sector_size: self.sector_size,
            node_size: self.node_size,
            compat_ro_flags: self.compat_ro_flags,
            incompat_flags: self.incompat_flags,
            dev_id: self.dev_id,
            sys_chunks: self.sys_chunks@,
        }
    }
}

impl SuperV {
    /// Whether tree blocks are recorded as skinny metadata items.
    pub open spec fn skinny(self) -> bool {
        self.incompat_flags & BTRFS_FEATURE_INCOMPAT_SKINNY_METADATA != 0
    }

    /// Geometry that the library can work with.
    pub open spec fn wf(self) -> bool {
        &&& self.sector_size > 0
        &&& self.node_size > 0
        &&& self.metadata_uuid.len() == 16
    }
}

/// The fields of the superblock copy in `raw`.
pub open spec fn super_of(raw: Seq<u8>) -> SuperV {
    SuperV {
        csum_type: CsumType::of_code(le16(raw, 0xc4))->Some_0,
        metadata_uuid: if le64(raw, 0xbc) & BTRFS_FEATURE_INCOMPAT_METADATA_UUID != 0 {
            raw.subrange(0x23b, 0x24b)
        } else {
            raw.subrange(0x20, 0x30)
        },
        generation: le64(raw, 0x48),
        root: le64(raw, 0x50),
        root_level: raw[0xc6],
        chunk_root: le64(raw, 0x58),
        chunk_root_level: raw[0xc7],
        chunk_root_generation: le64(raw, 0xa4),
        log_root: le64(raw, 0x60),
        total_bytes: le64(raw, 0x70),
        bytes_used: le64(raw, 0x78),
        num_devices: le64(raw, 0x88),
        sector_size: le32(raw, 0x90),
        node_size: le32(raw, 0x94),
        compat_ro_flags: le64(raw, 0xb4),
        incompat_flags: le64(raw, 0xbc),
        dev_id: le64(raw, 0xc9),
        sys_chunks: raw.subrange(0x32b, 0x32b + le32(raw, 0xa0)),
    }
}

/// What decoding the superblock copy at device offset `offset` gives.
#[verifier::opaque]
pub open spec fn parse_super(raw: Seq<u8>, offset: u64) -> Outcome<SuperV> {
    if raw.len() < 4096 {
        Err(Fault::CorruptFs("btrfs superblock truncated"@))
    } else if le64(raw, 0x40) != SUPER_MAGIC {
        Err(Fault::CorruptFs("not a btrfs superblock"@))
    } else if CsumType::of_code(le16(raw, 0xc4)) is None {
        Err(Fault::UnsupportedFsFeature("btrfs checksum type"@))
    } else if raw.subrange(0, 32) != csum_field(
        CsumType::of_code(le16(raw, 0xc4))->Some_0,
        raw.subrange(32, 4096),
    ) {
        Err(Fault::CorruptFs("btrfs superblock checksum mismatch"@))
    } else if le64(raw, 0x30) != offset {
        Err(Fault::CorruptFs("btrfs superblock at wrong offset"@))
    } else if le32(raw, 0x90) == 0 || le32(raw, 0x94) == 0 {
        Err(Fault::CorruptFs("btrfs superblock geometry"@))
    } else if le32(raw, 0xa0) > 2048 {
        Err(Fault::CorruptFs("btrfs system chunk array too long"@))
    } else {
        Ok(super_of(raw))
    }
}

/// The superblock copy for device offset `offset` that carries the fields of
/// `sb` over the template `raw`, behind its checksum field.
pub open spec fn super_fields(sb: SuperV, raw: Seq<u8>, offset: u64) -> Seq<u8> {
    let a = splice(raw, 0x30, enc64(offset));
    let b = splice(a, 0x48, enc64(sb.generation));
    let c = splice(b, 0x50, enc64(sb.root));
    let d = splice(c, 0x58, enc64(sb.chunk_root));
    let e = splice(d, 0x78, enc64(sb.bytes_used));
    let f = splice(e, 0xa4, enc64(sb.chunk_root_generation));
    let g = splice(f, 0xb4, enc64(sb.compat_ro_flags));
    let h = g.update(0xc6, sb.root_level);
    h.update(0xc7, sb.chunk_root_level)
}

/// The superblock copy that is written at device offset `offset`.
#[verifier::opaque]
pub open spec fn super_copy(sb: SuperV, raw: Seq<u8>, offset: u64) -> Seq<u8> {
    let body = super_fields(sb, raw, offset);
    csum_field(sb.csum_type, body.subrange(32, 4096)) + body.subrange(32, 4096)
}

impl Superblock {
    /// Whether tree blocks are recorded as skinny metadata items.
    pub fn has_skinny_metadata(&self) -> (r: bool)
        ensures
            r == self@.skinny(),
    {
        self.incompat_flags & BTRFS_FEATURE_INCOMPAT_SKINNY_METADATA != 0
    }

    /// Check and decode the superblock copy at device offset `offset`.
    pub fn parse(raw: &[u8], offset: u64) -> (r: Result<Self>)
        ensures
            match r {
                Ok(s) => parse_super(raw@, offset) == Ok::<SuperV, Fault>(s@) && s@.wf(),
                Err(e) => parse_super(raw@, offset) == Err::<SuperV, Fault>(e@),
            },
    {
        reveal(parse_super);
        if raw.len() < SUPER_SIZE {
            return Err(LuksError::CorruptFs("btrfs superblock truncated"));
        }
        if get_u64(raw, 0x40) != SUPER_MAGIC {
            return Err(LuksError::CorruptFs("not a btrfs superblock"));
        }
        let csum_type = match CsumType::from_code(get_u16(raw, 0xc4)) {
            Some(t) => t,
            None => {
                return Err(LuksError::UnsupportedFsFeature(text("btrfs checksum type")));
            },
        };
        let want = copy_range(raw, 0, 32);
        let body = copy_range(raw, 32, SUPER_SIZE);
        let have = csum_type.calculate(body.as_slice());
        if !bytes_eq(want.as_slice(), have.as_slice()) {
            return Err(LuksError::CorruptFs("btrfs superblock checksum mismatch"));
        }
        if get_u64(raw, 0x30) != offset {
            return Err(LuksError::CorruptFs("btrfs superblock at wrong offset"));
        }
        let sector_size: u32 = get_u32(raw, 0x90);
        let node_size: u32 = get_u32(raw, 0x94);
        if sector_size == 0 || node_size == 0 {
            return Err(LuksError::CorruptFs("btrfs superblock geometry"));
        }
        let sys_len: u32 = get_u32(raw, 0xa0);
        if sys_len > 2048 {
            return Err(LuksError::CorruptFs("btrfs system chunk array too long"));
        }
        let incompat_flags: u64 = get_u64(raw, 0xbc);
        let metadata_uuid = if incompat_flags & BTRFS_FEATURE_INCOMPAT_METADATA_UUID != 0 {
            get_array::<16>(raw, 0x23b)
        } else {
            get_array::<16>(raw, 0x20)
        };
        let s = Superblock {
            csum_type,
            metadata_uuid,
            generation: get_u64(raw, 0x48),
            root: get_u64(raw, 0x50),
            root_level: raw[0xc6],
            chunk_root: get_u64(raw, 0x58),
            chunk_root_level: raw[0xc7],
            chunk_root_generation: get_u64(raw, 0xa4),
            log_root: get_u64(raw, 0x60),
            total_bytes: get_u64(raw, 0x70),
            bytes_used: get_u64(raw, 0x78),
            num_devices: get_u64(raw, 0x88),
            sector_size,
            node_size,
            compat_ro_flags: get_u64(raw, 0xb4),
            incompat_flags,
            dev_id: get_u64(raw, 0xc9),
            sys_chunks: copy_range(raw, 0x32b, 0x32b + sys_len as usize),
        };
        Ok(s)
    }

    /// The superblock copy for device offset `offset`: the template with this
    /// superblock's fields and a fresh checksum.
    pub fn emit_copy(&self, template: &[u8], offset: u64) -> (r: Vec<u8>)
        requires
            template@.len() == 4096,
        ensures
            r@ == super_copy(self@, template@, offset),
    {
        broadcast use crate::bytes::group_enc_len;

        reveal(super_copy);
        let mut v = copy_bytes(template);
        put_u64(&mut v, 0x30, offset);
        put_u64(&mut v, 0x48, self.generation);
        put_u64(&mut v, 0x50, self.root);
        put_u64(&mut v, 0x58, self.chunk_root);
        put_u64(&mut v, 0x78, self.bytes_used);
        put_u64(&mut v, 0xa4, self.chunk_root_generation);
        put_u64(&mut v, 0xb4, self.compat_ro_flags);
        v.set(0xc6, self.root_level);
        v.set(0xc7, self.chunk_root_level);
        let body = copy_range(v.as_slice(), 32, 4096);
        let mut out = self.csum_type.calculate(body.as_slice());
        append_bytes(&mut out, body.as_slice());
        out
    }
}

impl Clone for Superblock {
    fn clone(&self) -> (r: Self)
        ensures
            r@ == self@,
    {
        Superblock {
            csum_type: self.csum_type,
            metadata_uuid: self.metadata_uuid,
            generation: self.generation,
            root: self.root,
            root_level: self.root_level,
            chunk_root: self.chunk_root,
            chunk_root_level: self.chunk_root_level,
            chunk_root_generation: self.chunk_root_generation,
            log_root: self.log_root,
            total_bytes: self.total_bytes,
            bytes_used: self.bytes_used,
            num_devices: self.num_devices,
            sector_size: self.sector_size,
            node_size: self.node_size,
            compat_ro_flags: self.compat_ro_flags,
            incompat_flags: self.incompat_flags,
            dev_id: self.dev_id,
            sys_chunks: copy_bytes(self.sys_chunks.as_slice()),
        }
    }
}

/// The superblock copy at `at`, if it can be read (`seen`) and is valid.
pub open spec fn super_at(disk: Seq<u8>, at: u64, seen: bool) -> Option<SuperV> {
    if !seen {
        None
    } else {
        match image_read(disk, at as int, SUPER_SIZE as int) {
            Err(_) => None,
            Ok(raw) => match parse_super(raw, at) {
                Err(_) => None,
                Ok(s) => Some(s),
            },
        }
    }
}

/// The one of higher generation; `a` where they are equal.
pub open spec fn newer(a: Option<SuperV>, b: Option<SuperV>) -> Option<SuperV> {
    match (a, b) {
        (None, _) => b,
        (_, None) => a,
        (Some(x), Some(y)) => if y.generation > x.generation {
            b
        } else {
            a
        },
    }
}

/// Which of the superblock copies could be read. Where the device fails, a copy
/// is passed over.
pub struct CopiesSeen {
    pub first: bool,
    pub second: bool,
    pub third: bool,
}

/// Whether the reads can have gone this way: on a steady device all go through.
pub open spec fn copies_possible(steady: bool, seen: CopiesSeen) -> bool {
    steady ==> seen.first && seen.second && seen.third
}

/// The superblock of a device: the valid copy of the highest generation.
pub open spec fn super_found(disk: Seq<u8>, seen: CopiesSeen) -> Option<SuperV> {
    newer(
        newer(
            super_at(disk, SUPER_OFFSET_0, seen.first),
            super_at(disk, SUPER_OFFSET_1, seen.second),
        ),
        super_at(disk, SUPER_OFFSET_2, seen.third),
    )
}

/// Whether `r` is the superblock of a device.
pub open spec fn finds_super(steady: bool, disk: Seq<u8>, r: Result<Superblock>) -> bool {
    exists|seen: CopiesSeen| #[trigger]
        copies_possible(steady, seen) && match r {
            Ok(s) => super_found(disk, seen) == Some(s@),
            Err(e) => super_found(disk, seen) is None && e@ == Fault::CorruptFs(
                "no valid btrfs superblock"@,
            ),
        }
}

fn read_copy<D: ReadAt>(device: &D, at: u64) -> (r: Option<Superblock>)
    ensures
        match r {
            Some(s) => super_at(device.contents(), at, true) == Some(s@) && s@.wf(),
            None => super_at(device.contents(), at, true) is None || !device.steady(),
        },
{
    match device.read_at(at, SUPER_SIZE) {
        Err(_) => None,
        Ok(raw) => match Superblock::parse(raw.as_slice(), at) {
            Err(_) => None,
            Ok(s) => Some(s),
        },
    }
}

fn pick(a: Option<Superblock>, b: Option<Superblock>) -> (r: Option<Superblock>)
    ensures
        opt_view(r) == newer(opt_view(a), opt_view(b)),
        (a matches Some(x) ==> x@.wf()) && (b matches Some(x) ==> x@.wf()) ==> (r matches Some(x)
            ==> x@.wf()),
{
    match a {
        None => b,
        Some(x) => match b {
            None => Some(x),
            Some(y) => {
                if y.generation > x.generation {
                    Some(y)
                } else {
                    Some(x)
                }
            },
        },
    }
}

/// The view of a superblock that may be missing.
pub open spec fn opt_view(s: Option<Superblock>) -> Option<SuperV> {
    match s {
        Some(x) => Some(x@),
        None => None,
    }
}

impl Superblock {
    /// Find the superblock of a device.
    pub fn find<D: ReadAt>(device: &D) -> (r: Result<Self>)
        ensures
            finds_super(device.steady(), device.contents(), r),
            r matches Ok(s) ==> s@.wf(),
    {
        let ghost disk = device.contents();
        let a = read_copy(device, SUPER_OFFSET_0);
        let b = read_copy(device, SUPER_OFFSET_1);
        let c = read_copy(device, SUPER_OFFSET_2);
        proof {
            let seen = CopiesSeen {
                first: opt_view(a) == super_at(disk, SUPER_OFFSET_0, true),
                second: opt_view(b) == super_at(disk, SUPER_OFFSET_1, true),
                third: opt_view(c) == super_at(disk, SUPER_OFFSET_2, true),
            };
            assert(copies_possible(device.steady(), seen));
            assert(opt_view(a) == super_at(disk, SUPER_OFFSET_0, seen.first));
            assert(opt_view(b) == super_at(disk, SUPER_OFFSET_1, seen.second));
            assert(opt_view(c) == super_at(disk, SUPER_OFFSET_2, seen.third));
        }
        match pick(pick(a, b), c) {
            Some(s) => Ok(s),
            None => Err(LuksError::CorruptFs("no valid btrfs superblock")),
        }
    }
}

} // verus!
