//! Filesystems.

pub mod btrfs;
pub mod detect;
pub mod ext4;
pub mod lossy;
pub mod naming;
pub mod path;
pub mod telling;

use vstd::prelude::*;

verus! {

/// What a directory entry or inode is.
#[derive(Debug, Clone, Copy, PartialEq, Eq, Structural)]
pub enum FileType {
    Regular,
    Directory,
    Symlink,
    CharDevice,
    BlockDevice,
    Fifo,
    Socket,
    Unknown,
}

impl FileType {
    /// Whether this is a directory.
    pub fn is_dir(self) -> (r: bool)
        ensures
            r == (self == FileType::Directory),
    {
        self == FileType::Directory
    }

    /// Whether this is a regular file.
    pub fn is_file(self) -> (r: bool)
        ensures
            r == (self == FileType::Regular),
    {
        self == FileType::Regular
    }
}

/// The file type that the format bits of a mode give.
pub open spec fn mode_type(mode: u32) -> FileType {
    let f = mode & 0xF000;
    if f == 0x8000 {
        FileType::Regular
    } else if f == 0x4000 {
        FileType::Directory
    } else if f == 0xA000 {
        FileType::Symlink
    } else if f == 0x2000 {
        FileType::CharDevice
    } else if f == 0x6000 {
        FileType::BlockDevice
    } else if f == 0x1000 {
        FileType::Fifo
    } else if f == 0xC000 {
        FileType::Socket
    } else {
        FileType::Unknown
    }
}

/// The file type that the format bits of a mode give.
pub fn type_of_mode(mode: u32) -> (r: FileType)
    ensures
        r == mode_type(mode),
{
    let f: u32 = mode & 0xF000;
    if f == 0x8000 {
        FileType::Regular
    } else if f == 0x4000 {
        FileType::Directory
    } else if f == 0xA000 {
        FileType::Symlink
    } else if f == 0x2000 {
        FileType::CharDevice
    } else if f == 0x6000 {
        FileType::BlockDevice
    } else if f == 0x1000 {
        FileType::Fifo
    } else if f == 0xC000 {
        FileType::Socket
    } else {
        FileType::Unknown
    }
}

/// The file type that a directory entry's type byte gives.
///
/// Both ext4 and btrfs number the types this way.
pub open spec fn entry_type(b: u8) -> FileType {
    if b == 1 {
        FileType::Regular
    } else if b == 2 {
        FileType::Directory
    } else if b == 3 {
        FileType::CharDevice
    } else if b == 4 {
        FileType::BlockDevice
    } else if b == 5 {
        FileType::Fifo
    } else if b == 6 {
        FileType::Socket
    } else if b == 7 {
        FileType::Symlink
    } else {
        FileType::Unknown
    }
}

/// The file type that a directory entry's type byte gives.
pub fn type_of_entry(b: u8) -> (r: FileType)
    ensures
        r == entry_type(b),
{
    if b == 1 {
        FileType::Regular
    } else if b == 2 {
        FileType::Directory
    } else if b == 3 {
        FileType::CharDevice
    } else if b == 4 {
        FileType::BlockDevice
    } else if b == 5 {
        FileType::Fifo
    } else if b == 6 {
        FileType::Socket
    } else if b == 7 {
        FileType::Symlink
    } else {
        FileType::Unknown
    }
}

/// What is known of a file.
#[derive(Debug, Clone, Copy, PartialEq, Eq, Structural)]
pub struct FileInfo {
    pub size: u64,
    pub mode: u32,
    pub uid: u32,
    pub gid: u32,
    pub links: u32,
    pub file_type: FileType,
    pub atime: i64,
    pub mtime: i64,
    pub ctime: i64,
}

/// An entry of a directory.
#[derive(Debug, PartialEq, Eq)]
pub struct DirEntry {
    pub name: String,
    pub inode: u64,
    pub file_type: FileType,
    pub is_subvolume: bool,
}

/// The mathematical view of a [`DirEntry`].
pub struct EntryV {
    pub name: Seq<char>,
    pub inode: u64,
    pub file_type: FileType,
    pub is_subvolume: bool,
}

impl View for DirEntry {
    type V = EntryV;

    open spec fn view(&self) -> EntryV {
        EntryV {
            name: self.name@,
            inode: self.inode,
            file_type: self.file_type,
            is_subvolume: self.is_subvolume,
        }
    }
}

/// The views of a sequence of entries.
pub open spec fn entries_of(s: Seq<DirEntry>) -> Seq<EntryV> {
    s.map_values(|e: DirEntry| e@)
}

} // verus!
