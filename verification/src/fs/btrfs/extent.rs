//! File extent items.

use vstd::prelude::*;

use crate::bytes::{get_u64, le64};
use crate::error::{Fault, LuksError, Outcome, Result};

verus! {

/// How the bytes of a file extent are stored.
#[derive(Debug, Clone, Copy, PartialEq, Eq, Structural)]
pub enum ExtentKind {
    /// In the item itself.
    Inline,
    /// In a data extent.
    Regular,
    /// In a data extent that was set aside but never written.
    Prealloc,
}

/// A file extent.
#[derive(Debug, Clone, Copy, PartialEq, Eq, Structural)]
pub struct FileExtent {
    pub file_offset: u64,
    pub generation: u64,
    pub ram_bytes: u64,
    pub compression: u8,
    pub kind: ExtentKind,
    /// Where the data extent is; zero for a hole.
    pub disk_bytenr: u64,
    pub disk_num_bytes: u64,
    /// Where in the data extent the file's bytes begin.
    pub offset: u64,
    pub num_bytes: u64,
}

/// A file extent item, decoded.
pub open spec fn parse_extent(file_offset: u64, d: Seq<u8>) -> Outcome<FileExtent> {
    if d.len() < 21 {
        Err(Fault::CorruptFs("btrfs file extent truncated"@))
    } else if d[20] == 0 {
        Ok(
            FileExtent {
                file_offset,
                generation: le64(d, 0),
                ram_bytes: le64(d, 8),
                compression: d[16],
                kind: ExtentKind::Inline,
                disk_bytenr: 0,
                disk_num_bytes: 0,
                offset: 0,
                num_bytes: le64(d, 8),
            },
        )
    } else if d[20] > 2 {
        Err(Fault::CorruptFs("btrfs file extent of unknown type"@))
    } else if d.len() < 53 {
        Err(Fault::CorruptFs("btrfs file extent truncated"@))
    } else {
        Ok(
            FileExtent {
                file_offset,
                generation: le64(d, 0),
                ram_bytes: le64(d, 8),
                compression: d[16],
                kind: if d[20] == 1 {
                    ExtentKind::Regular
                } else {
                    ExtentKind::Prealloc
                },
                disk_bytenr: le64(d, 21),
                disk_num_bytes: le64(d, 29),
                offset: le64(d, 37),
                num_bytes: le64(d, 45),
            },
        )
    }
}

impl FileExtent {
    /// Whether the extent takes up bytes of the device: it is neither inline
    /// nor a hole.
    pub open spec fn on_disk(self) -> bool {
        self.kind != ExtentKind::Inline && self.disk_bytenr != 0
    }

    /// Decode a file extent item.
    pub fn parse(file_offset: u64, d: &[u8]) -> (r: Result<Self>)
        ensures
            match r {
                Ok(x) => parse_extent(file_offset, d@) == Ok::<FileExtent, Fault>(x),
                Err(e) => parse_extent(file_offset, d@) == Err::<FileExtent, Fault>(e@),
            },
    {
        if d.len() < 21 {
            return Err(LuksError::CorruptFs("btrfs file extent truncated"));
        }
        if d[20] == 0 {
            return Ok(
                FileExtent {
                    file_offset,
                    generation: get_u64(d, 0),
                    ram_bytes: get_u64(d, 8),
                    compression: d[16],
                    kind: ExtentKind::Inline,
                    disk_bytenr: 0,
                    disk_num_bytes: 0,
                    offset: 0,
                    num_bytes: get_u64(d, 8),
                },
            );
        }
        if d[20] > 2 {
            return Err(LuksError::CorruptFs("btrfs file extent of unknown type"));
        }
        if d.len() < 53 {
            return Err(LuksError::CorruptFs("btrfs file extent truncated"));
        }
        Ok(
            FileExtent {
                file_offset,
                generation: get_u64(d, 0),
                ram_bytes: get_u64(d, 8),
                compression: d[16],
                kind: if d[20] == 1 {
                    ExtentKind::Regular
                } else {
                    ExtentKind::Prealloc
                },
                disk_bytenr: get_u64(d, 21),
                disk_num_bytes: get_u64(d, 29),
                offset: get_u64(d, 37),
                num_bytes: get_u64(d, 45),
            },
        )
    }

    /// Whether the extent takes up bytes of the device.
    pub fn has_disk_bytes(&self) -> (r: bool)
        ensures
            r == self.on_disk(),
    {
        self.kind != ExtentKind::Inline && self.disk_bytenr != 0
    }
}

} // verus!
