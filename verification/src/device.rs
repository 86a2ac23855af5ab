//! Block devices as byte images.

use vstd::pervasive::arbitrary;
use vstd::prelude::*;

use crate::bytes::{copy_range, put_bytes, splice};
use crate::error::{tracks, Fault, LuksError, Outcome, Result};

verus! {

/// What a read of `len` bytes at `offset` finds on an image.
pub open spec fn image_read(image: Seq<u8>, offset: int, len: int) -> Outcome<Seq<u8>> {
    if offset + len <= image.len() {
        Ok(image.subrange(offset, offset + len))
    } else {
        Err(Fault::Io)
    }
}

/// A device that can be read at any offset.
pub trait ReadAt {
    /// The bytes on the device. A device that says nothing of them has some.
    open spec fn contents(&self) -> Seq<u8> {
        arbitrary()
    }

    /// The device never fails a transfer that lies within its contents.
    ///
    /// A device behind a cable is not steady; an image in memory is.
    open spec fn steady(&self) -> bool {
        false
    }

    /// The length the device reports, where it knows one.
    open spec fn known_len(&self) -> Option<u64> {
        arbitrary()
    }

    /// Read `len` bytes at `offset`.
    ///
    /// What comes back is what the device holds; a device that is not steady
    /// may fail instead.
    fn read_at(&self, offset: u64, len: usize) -> (r: Result<Vec<u8>>)
        ensures
            tracks(self.steady(), r, image_read(self.contents(), offset as int, len as int)),
    ;

    /// The device length in bytes, where it is known.
    fn len(&self) -> (r: Option<u64>)
        ensures
            r == self.known_len(),
            r matches Some(n) ==> n == self.contents().len(),
    ;
}

/// One operation performed on a device.
pub enum DeviceOp {
    Write { offset: int, data: Seq<u8> },
    Flush,
}

/// A device that can also be written.
pub trait WriteAt: ReadAt {
    /// The completed writes and flushes so far, oldest first.
    open spec fn history(&self) -> Seq<DeviceOp> {
        arbitrary()
    }

    /// Write `data` at `offset`. A write that fails is not among the completed
    /// ones, and changes no byte outside the range it was for.
    fn write_at(&mut self, offset: u64, data: &[u8]) -> (r: Result<()>)
        ensures
            final(self).steady() == old(self).steady(),
            final(self).known_len() == old(self).known_len(),
            final(self).contents().len() == old(self).contents().len(),
            match r {
                Ok(()) => {
                    &&& offset + data@.len() <= old(self).contents().len()
                    &&& final(self).contents() == splice(
                        old(self).contents(),
                        offset as int,
                        data@,
                    )
                    &&& final(self).history() == old(self).history().push(
                        DeviceOp::Write { offset: offset as int, data: data@ },
                    )
                },
                Err(e) => {
                    &&& e@ is Io
                    &&& old(self).steady() ==> offset + data@.len() > old(self).contents().len()
                    &&& final(self).history() == old(self).history()
                    &&& forall|x: int|
                        0 <= x < old(self).contents().len() && !(offset <= x < offset
                            + data@.len()) ==> #[trigger] final(self).contents()[x] == old(
                            self,
                        ).contents()[x]
                },
            },
    ;

    /// Force completed writes to the medium. A flush that fails is not among the
    /// completed ones.
    fn flush(&mut self) -> (r: Result<()>)
        ensures
            final(self).steady() == old(self).steady(),
            final(self).known_len() == old(self).known_len(),
            final(self).contents() == old(self).contents(),
            match r {
                Ok(()) => final(self).history() == old(self).history().push(DeviceOp::Flush),
                Err(e) => e@ is Io && !old(self).steady() && final(self).history() == old(
                    self,
                ).history(),
            },
    ;
}

impl ReadAt for Vec<u8> {
    open spec fn contents(&self) -> Seq<u8> {
        self@
    }

    open spec fn steady(&self) -> bool {
        true
    }

    open spec fn known_len(&self) -> Option<u64> {
        if self@.len() <= u64::MAX {
            Some(self@.len() as u64)
        } else {
            None
        }
    }

    fn read_at(&self, offset: u64, len: usize) -> (r: Result<Vec<u8>>) {
        let n: u64 = Vec::len(self) as u64;
        if offset > n || len as u64 > n - offset {
            return Err(LuksError::Io);
        }
        Ok(copy_range(self.as_slice(), offset as usize, offset as usize + len))
    }

    fn len(&self) -> (r: Option<u64>) {
        Some(Vec::len(self) as u64)
    }
}

/// A device held in memory.
pub struct MemDevice {
    bytes: Vec<u8>,
    ops: Ghost<Seq<DeviceOp>>,
}

impl MemDevice {
    /// A device that holds `bytes`.
    pub fn new(bytes: Vec<u8>) -> (r: Self)
        ensures
            r.contents() == bytes@,
            r.history() == Seq::<DeviceOp>::empty(),
    {
        MemDevice { bytes, ops: Ghost(Seq::empty()) }
    }

    /// The bytes on the device.
    pub fn into_bytes(self) -> (r: Vec<u8>)
        ensures
            r@ == self.contents(),
    {
        self.bytes
    }
}

impl ReadAt for MemDevice {
    closed spec fn contents(&self) -> Seq<u8> {
        self.bytes@
    }

    open spec fn steady(&self) -> bool {
        true
    }

    closed spec fn known_len(&self) -> Option<u64> {
        self.bytes.known_len()
    }

    fn read_at(&self, offset: u64, len: usize) -> (r: Result<Vec<u8>>) {
        self.bytes.read_at(offset, len)
    }

    fn len(&self) -> (r: Option<u64>) {
        ReadAt::len(&self.bytes)
    }
}

impl WriteAt for MemDevice {
    closed spec fn history(&self) -> Seq<DeviceOp> {
        self.ops@
    }

    fn write_at(&mut self, offset: u64, data: &[u8]) -> (r: Result<()>) {
        let n: u64 = Vec::len(&self.bytes) as u64;
        if offset > n || data.len() as u64 > n - offset {
            return Err(LuksError::Io);
        }
        put_bytes(&mut self.bytes, offset as usize, data);
        self.ops = Ghost(
            self.ops@.push(DeviceOp::Write { offset: offset as int, data: data@ }),
        );
        Ok(())
    }

    fn flush(&mut self) -> (r: Result<()>) {
        self.ops = Ghost(self.ops@.push(DeviceOp::Flush));
        Ok(())
    }
}

} // verus!
