//! Read-only access to a recovery source.

use vstd::prelude::*;
use crate::range::{io_error, ByteRange, RecoveryResult};

verus! {

/// A read-only source of bytes: an image file, a raw disk, or memory.
///
/// Implementations never expose a write path: recovery must not modify its
/// source.
pub trait BlockDevice {
    /// The bytes of the source.
    spec fn contents(&self) -> Seq<u8>;

    /// Whether every read inside the source returns all the bytes it asks
    /// for. A source with failing media does not.
    spec fn reads_fully(&self) -> bool;

    /// Number of bytes in the source.
    fn capacity(&self) -> (c: u64)
        ensures
            c == self.contents().len(),
    ;

    /// Reads up to `range.length` bytes starting at `range.offset`.
    ///
    /// A read may fail, or return fewer bytes than requested; whatever it
    /// returns is a prefix of the requested span of the source.
    fn read(&self, range: ByteRange) -> (r: RecoveryResult<Vec<u8>>)
        ensures
            r matches Ok(bytes) ==> {
                &&& range.within(self.contents().len() as int)
                &&& bytes@.len() <= range.length
                &&& bytes@ == self.contents().subrange(
                    range.offset as int,
                    range.offset + bytes@.len(),
                )
            },
            self.reads_fully() && range.within(self.contents().len() as int) ==> (r matches Ok(bytes)
                && bytes@.len() == range.length),
    ;
}

/// Whether every read inside `device` succeeds in full, its size being a
/// `u64`.
pub open spec fn readable<D: BlockDevice>(device: &D) -> bool {
    device.reads_fully() && device.contents().len() <= u64::MAX
}

/// The bytes of `device` in `[offset, offset + length)`.
pub open spec fn span<D: BlockDevice>(device: &D, offset: int, length: int) -> Seq<u8> {
    device.contents().subrange(offset, offset + length)
}

/// Reads exactly `length` bytes at `offset`, failing on a short read.
pub fn read_exact<D: BlockDevice>(device: &D, offset: u64, length: u64) -> (r: RecoveryResult<
    Vec<u8>,
>)
    ensures
        r matches Ok(bytes) ==> offset + length <= device.contents().len() && bytes@ == span(
            device,
            offset as int,
            length as int,
        ),
        offset + length > u64::MAX ==> (r matches Err(e) && e is RangeOverflow),
        device.reads_fully() && offset + length <= device.contents().len() && offset + length <= u64::MAX ==> r is Ok,
{
    let range = ByteRange::new(offset, length)?;
    let bytes = device.read(range)?;
    if bytes.len() as u64 != length {
        return Err(io_error("short read while an exact read was required"));
    }
    Ok(bytes)
}

/// An in-memory source.
pub struct MemoryDevice {
    bytes: Vec<u8>,
}

impl MemoryDevice {
    /// The bytes held by the device.
    pub closed spec fn view_bytes(&self) -> Seq<u8> {
        self.bytes@
    }

    /// Wraps `bytes` as a read-only device.
    pub fn new(bytes: Vec<u8>) -> (d: MemoryDevice)
        ensures
            d.view_bytes() == bytes@,
    {
        MemoryDevice { bytes }
    }

    /// A copy of the device's bytes, for checking that the source was never
    /// modified.
    pub fn snapshot(&self) -> (r: Vec<u8>)
        ensures
            r@ == self.view_bytes(),
    {
        self.bytes.clone()
    }

    /// The range covering the whole device.
    pub fn range(&self) -> (r: ByteRange)
        requires
            self.view_bytes().len() <= u64::MAX,
        ensures
            r.offset == 0 && r.length == self.view_bytes().len(),
    {
        ByteRange { offset: 0, length: self.bytes.len() as u64 }
    }
}

impl BlockDevice for MemoryDevice {
    open spec fn contents(&self) -> Seq<u8> {
        self.view_bytes()
    }

    open spec fn reads_fully(&self) -> bool {
        true
    }

    fn capacity(&self) -> (c: u64) {
        self.bytes.len() as u64
    }

    fn read(&self, range: ByteRange) -> (r: RecoveryResult<Vec<u8>>)
        ensures
            r is Ok <==> range.within(self.contents().len() as int),
    {
        range.validate_within(self.bytes.len() as u64)?;
        let start = range.offset as usize;
        let end = (range.offset + range.length) as usize;
        Ok(crate::bytes::copy_range(self.bytes.as_slice(), start, end))
    }
}

/// An in-memory source with an unreadable span, standing in for media with
/// failing sectors: every read touching `[bad_from, bad_to)` fails.
pub struct FaultyDevice {
    bytes: Vec<u8>,
    bad_from: u64,
    bad_to: u64,
}

impl FaultyDevice {
    /// The bytes held by the device.
    pub closed spec fn view_bytes(&self) -> Seq<u8> {
        self.bytes@
    }

    /// The unreadable span.
    pub closed spec fn bad_span(&self) -> (u64, u64) {
        (self.bad_from, self.bad_to)
    }

    /// Wraps `bytes`, making `[bad_from, bad_to)` unreadable.
    pub fn new(bytes: Vec<u8>, bad_from: u64, bad_to: u64) -> (d: FaultyDevice)
        ensures
            d.view_bytes() == bytes@,
            d.bad_span() == (bad_from, bad_to),
    {
        FaultyDevice { bytes, bad_from, bad_to }
    }
}

impl BlockDevice for FaultyDevice {
    open spec fn contents(&self) -> Seq<u8> {
        self.view_bytes()
    }

    open spec fn reads_fully(&self) -> bool {
        self.bad_span().1 == 0 || self.bad_span().0 >= self.view_bytes().len()
    }

    fn capacity(&self) -> (c: u64) {
        self.bytes.len() as u64
    }

    fn read(&self, range: ByteRange) -> (r: RecoveryResult<Vec<u8>>)
        ensures
            r is Ok <==> range.within(self.contents().len() as int) && !(range.offset < self.bad_span().1
                && range.spec_end() > self.bad_span().0),
    {
        range.validate_within(self.bytes.len() as u64)?;
        let end = range.offset + range.length;
        if range.offset < self.bad_to && end > self.bad_from {
            return Err(io_error("unreadable span"));
        }
        let start = range.offset as usize;
        Ok(crate::bytes::copy_range(self.bytes.as_slice(), start, end as usize))
    }
}

} // verus!
