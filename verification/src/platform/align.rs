//! Alignment arithmetic for raw-device adapters.
//!
//! Raw volume and physical-drive handles reject reads whose offset or length
//! is not a multiple of the logical sector size. The device contract
//! nevertheless lets callers pass arbitrary byte ranges, so adapters read the
//! enclosing aligned span and trim in memory.

use vstd::prelude::*;
use crate::exfat::boot::power_of_two;
use crate::fat32::{is_pow2, pow2_u64};
use crate::range::{unsupported, ByteRange, RecoveryError, RecoveryResult};

verus! {

/// An aligned span covering a caller's requested range.
#[derive(Clone, Copy, Debug, PartialEq, Eq)]
pub struct AlignedRead {
    /// Sector-aligned range to issue against the device.
    pub aligned: ByteRange,
    /// Offset of the caller's data within the aligned buffer.
    pub inner_offset: usize,
    /// Number of bytes the caller asked for.
    pub inner_length: usize,
}

/// Computes the aligned span enclosing `range`.
///
/// `sector_size` must be a non-zero power of two. `capacity` bounds the span:
/// the tail is clamped so a read near the end of the device does not run past
/// it, which would otherwise fail on a device whose capacity is not a whole
/// number of sectors.
pub fn align_read(range: ByteRange, sector_size: u64, capacity: u64) -> (r: RecoveryResult<AlignedRead>)
    ensures
        !is_pow2(sector_size as int) ==> (r matches Err(e) && e is Unsupported),
        is_pow2(sector_size as int) && !range.within(capacity as int) ==> r is Err,
        is_pow2(sector_size as int) && !range.within(capacity as int) && range.spec_end() <= u64::MAX ==> (r matches Err(
            e,
        ) && e == RecoveryError::OutOfRange { offset: range.offset, length: range.length, capacity }),
        is_pow2(sector_size as int) && range.spec_end() > u64::MAX ==> (r matches Err(e) && e is RangeOverflow),
        r matches Ok(a) ==> {
            let end = range.spec_end();
            let rounded_up = (end + sector_size - 1) / (sector_size as int) * sector_size;
            &&& a.aligned.offset == range.offset / sector_size * sector_size
            &&& a.aligned.spec_end() == if rounded_up < capacity {
                rounded_up
            } else {
                capacity as int
            }
            &&& a.inner_offset == range.offset - a.aligned.offset
            &&& a.inner_length == range.length
            &&& a.aligned.offset <= range.offset
            &&& a.inner_offset + a.inner_length <= a.aligned.length
            &&& a.aligned.spec_end() <= capacity
        },
        is_pow2(sector_size as int) && range.within(capacity as int) && range.length <= usize::MAX
            && range.offset % sector_size <= usize::MAX && range.spec_end() + sector_size
            - 1 <= u64::MAX ==> r is Ok,
{
    if sector_size == 0 || !pow2_u64(sector_size) {
        return Err(unsupported("sector size is not a non-zero power of two"));
    }
    range.validate_within(capacity)?;
    let end = range.end()?;
    // Round the start down and the end up to sector boundaries.
    assert(range.offset % sector_size <= range.offset) by (nonlinear_arith)
        requires
            sector_size > 0,
    ;
    let start = range.offset - range.offset % sector_size;
    assert(start == range.offset / sector_size * sector_size) by (nonlinear_arith)
        requires
            start == range.offset - range.offset % sector_size,
            sector_size > 0,
    ;
    let bumped = match end.checked_add(sector_size - 1) {
        Some(v) => v,
        None => return Err(RecoveryError::RangeOverflow),
    };
    assert(bumped % sector_size <= bumped) by (nonlinear_arith)
        requires
            sector_size > 0,
    ;
    let aligned_end = bumped - bumped % sector_size;
    assert(aligned_end == bumped / sector_size * sector_size) by (nonlinear_arith)
        requires
            aligned_end == bumped - bumped % sector_size,
            sector_size > 0,
    ;
    // Never read past the device, even when rounding up would.
    let aligned_end = if aligned_end < capacity {
        aligned_end
    } else {
        capacity
    };
    assert(start <= range.offset) by (nonlinear_arith)
        requires
            start == range.offset / sector_size * sector_size,
            sector_size > 0,
    ;
    assert(end <= bumped / sector_size * sector_size) by (nonlinear_arith)
        requires
            bumped == end + sector_size - 1,
            sector_size > 0,
    ;
    if range.offset - start > usize::MAX as u64 {
        return Err(RecoveryError::RangeOverflow);
    }
    let inner_offset = (range.offset - start) as usize;
    if range.length > usize::MAX as u64 {
        return Err(RecoveryError::LengthTooLarge { length: range.length });
    }
    let inner_length = range.length as usize;
    let aligned = ByteRange::new(start, aligned_end - start)?;
    Ok(AlignedRead { aligned, inner_offset, inner_length })
}

/// The aligned span always contains the request: whatever the range, sector
/// size and capacity, a successful alignment starts at or before the request
/// and is long enough to hold all of it.
pub proof fn lemma_aligned_span_contains_request(range: ByteRange, sector_size: u64, capacity: u64, a: AlignedRead)
    requires
        ({
            let end = range.spec_end();
            let rounded_up = (end + sector_size - 1) / (sector_size as int) * sector_size;
            &&& a.aligned.offset == range.offset / sector_size * sector_size
            &&& a.aligned.spec_end() == if rounded_up < capacity {
                rounded_up
            } else {
                capacity as int
            }
            &&& a.inner_offset == range.offset - a.aligned.offset
            &&& a.inner_length == range.length
        }),
        sector_size > 0,
        range.within(capacity as int),
    ensures
        a.aligned.offset <= range.offset,
        a.aligned.offset <= range.offset && range.spec_end() <= a.aligned.spec_end(),
{
    assert(range.offset / sector_size * sector_size <= range.offset) by (nonlinear_arith)
        requires
            sector_size > 0,
    ;
    let end = range.spec_end();
    assert(end <= (end + sector_size - 1) / (sector_size as int) * sector_size) by (nonlinear_arith)
        requires
            sector_size > 0,
            end >= 0,
    ;
}

} // verus!
