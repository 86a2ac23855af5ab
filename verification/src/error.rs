//! The error type shared by the whole library, and its mathematical view.

use vstd::prelude::*;

verus! {

/// Why an operation was refused or failed.
#[derive(Debug)]
pub enum LuksError {
    /// The device failed a transfer, or the transfer lies outside the device.
    Io,
    /// A request reaches past the bounds of the object it addresses.
    OutOfBounds,
    /// On-disk data contradicts itself.
    CorruptFs(&'static str),
    /// A path component or an item does not exist.
    NotFound(String),
    /// The target of a create already exists.
    AlreadyExists(String),
    /// A path component that must be a directory is not one.
    NotADirectory(String),
    /// A path that must not be a directory is one.
    IsADirectory(String),
    /// A directory to be removed still has entries.
    DirectoryNotEmpty(String),
    /// The filesystem uses a feature this library refuses.
    UnsupportedFsFeature(String),
    /// The filesystem was not unmounted cleanly.
    FsNeedsRecovery,
    /// No free range satisfies the request.
    FilesystemFull,
    /// An item that no tree node of this geometry can hold.
    BtrfsItemTooLarge { what: &'static str, item_bytes: usize, node_size: u32 },
    /// A file writer is already open.
    WriterBusy,
    /// The ext4 magic number is missing.
    NotExt4(u16),
    /// An inode number outside the inode tables.
    BadInode(u64),
    /// An ext4 extent node with the wrong magic number.
    BadExtentHeader(u16),
    /// An ext4 extent tree that cannot be walked.
    BadExtentTree(&'static str),
    /// Too many symbolic links in a row.
    SymlinkLoop(String),
    /// Two filesystem signatures on one volume.
    AmbiguousFs,
    /// A recognised filesystem without a driver.
    UnsupportedFs(&'static str),
    /// No known signature.
    UnknownFs,
}

/// The mathematical view of a [`LuksError`]: texts are character sequences.
pub enum Fault {
    Io,
    OutOfBounds,
    CorruptFs(Seq<char>),
    NotFound(Seq<char>),
    AlreadyExists(Seq<char>),
    NotADirectory(Seq<char>),
    IsADirectory(Seq<char>),
    DirectoryNotEmpty(Seq<char>),
    UnsupportedFsFeature(Seq<char>),
    FsNeedsRecovery,
    FilesystemFull,
    BtrfsItemTooLarge { what: Seq<char>, item_bytes: nat, node_size: nat },
    WriterBusy,
    NotExt4(u16),
    BadInode(u64),
    BadExtentHeader(u16),
    BadExtentTree(Seq<char>),
    SymlinkLoop(Seq<char>),
    AmbiguousFs,
    UnsupportedFs(Seq<char>),
    UnknownFs,
}

impl View for LuksError {
    type V = Fault;

    open spec fn view(&self) -> Fault {
        match *self {
            LuksError::Io => Fault::Io,
            LuksError::OutOfBounds => Fault::OutOfBounds,
            LuksError::CorruptFs(s) => Fault::CorruptFs(s@),
            LuksError::NotFound(s) => Fault::NotFound(s@),
            LuksError::AlreadyExists(s) => Fault::AlreadyExists(s@),
            LuksError::NotADirectory(s) => Fault::NotADirectory(s@),
            LuksError::IsADirectory(s) => Fault::IsADirectory(s@),
            LuksError::DirectoryNotEmpty(s) => Fault::DirectoryNotEmpty(s@),
            LuksError::UnsupportedFsFeature(s) => Fault::UnsupportedFsFeature(s@),
            LuksError::FsNeedsRecovery => Fault::FsNeedsRecovery,
            LuksError::FilesystemFull => Fault::FilesystemFull,
            LuksError::BtrfsItemTooLarge { what, item_bytes, node_size } =>
                Fault::BtrfsItemTooLarge {
                    what: what@,
                    item_bytes: item_bytes as nat,
                    node_size: node_size as nat,
                },
            LuksError::WriterBusy => Fault::WriterBusy,
            LuksError::NotExt4(m) => Fault::NotExt4(m),
            LuksError::BadInode(n) => Fault::BadInode(n),
            LuksError::BadExtentHeader(m) => Fault::BadExtentHeader(m),
            LuksError::BadExtentTree(s) => Fault::BadExtentTree(s@),
            LuksError::SymlinkLoop(s) => Fault::SymlinkLoop(s@),
            LuksError::AmbiguousFs => Fault::AmbiguousFs,
            LuksError::UnsupportedFs(s) => Fault::UnsupportedFs(s@),
            LuksError::UnknownFs => Fault::UnknownFs,
        }
    }
}

/// The library's result type.
pub type Result<T> = core::result::Result<T, LuksError>;

/// The mathematical counterpart of [`Result`].
pub type Outcome<T> = core::result::Result<T, Fault>;

/// The model of a result whose value is its own model.
pub open spec fn outcome<T>(r: Result<T>) -> Outcome<T> {
    match r {
        Ok(x) => Ok(x),
        Err(e) => Err(e@),
    }
}

/// The model of a result.
pub open spec fn modelled<T: View>(r: Result<T>) -> Outcome<T::V> {
    match r {
        Ok(x) => Ok(x@),
        Err(e) => Err(e@),
    }
}

/// `r` is what the model `want` says.
///
/// When the underlying device is not `steady`, a failed transfer may take the
/// place of any outcome; on a steady device `r` and `want` agree exactly.
pub open spec fn tracks<T: View>(steady: bool, r: Result<T>, want: Outcome<T::V>) -> bool {
    match r {
        Ok(v) => want == Ok::<T::V, Fault>(v@),
        Err(e) => want == Err::<T::V, Fault>(e@) || (!steady && e@ is Io),
    }
}

/// `acc` in front of what `r` gives, if it gives anything.
pub open spec fn prefixed<T>(acc: Seq<T>, r: Outcome<Seq<T>>) -> Outcome<Seq<T>> {
    match r {
        Ok(s) => Ok(acc + s),
        Err(e) => Err(e),
    }
}

/// `"...".to_string()` under a contract that names the text.
pub fn text(s: &str) -> (r: String)
    ensures
        r@ == s@,
{
    s.to_owned()
}

} // verus!
