//! Byte ranges, extents and the error type shared by every parser.

use vstd::prelude::*;
use crate::text::string_of;

verus! {

/// Why an operation failed.
#[derive(Clone, Debug, PartialEq, Eq)]
pub enum RecoveryError {
    /// The source could not be read, or its contents are structurally invalid.
    IoFailure(String),
    /// The source uses a feature or geometry this library does not handle.
    Unsupported(String),
    /// An offset or length computation would overflow.
    RangeOverflow,
    /// A length is larger than the operation accepts.
    LengthTooLarge { length: u64 },
    /// A range lies outside the space that bounds it.
    OutOfRange { offset: u64, length: u64, capacity: u64 },
    /// A caller-supplied buffer cannot hold the requested bytes.
    OutputBufferTooSmall { required: usize, provided: usize },
    /// The operation observed a cancellation request.
    Cancelled,
}

/// Result of a recovery operation.
pub type RecoveryResult<T> = Result<T, RecoveryError>;

/// An `IoFailure` carrying `message`.
pub fn io_error(message: &str) -> (e: RecoveryError)
    ensures
        e matches RecoveryError::IoFailure(m) && m@ == message@,
{
    RecoveryError::IoFailure(string_of(message))
}

/// An `Unsupported` error carrying `message`.
pub fn unsupported(message: &str) -> (e: RecoveryError)
    ensures
        e matches RecoveryError::Unsupported(m) && m@ == message@,
{
    RecoveryError::Unsupported(string_of(message))
}

/// A half-open span `[offset, offset + length)` of a source.
#[derive(Clone, Copy, Debug, PartialEq, Eq, Hash)]
pub struct ByteRange {
    pub offset: u64,
    pub length: u64,
}

impl ByteRange {
    /// The exclusive end of the range, as a mathematical integer.
    pub open spec fn spec_end(self) -> int {
        self.offset + self.length
    }

    /// Whether the range lies within a space of `capacity` bytes.
    pub open spec fn within(self, capacity: int) -> bool {
        self.offset + self.length <= capacity
    }

    /// Builds a range, refusing one whose end does not fit in a `u64`.
    pub fn new(offset: u64, length: u64) -> (r: RecoveryResult<ByteRange>)
        ensures
            r matches Ok(range) ==> range.offset == offset && range.length == length,
            r is Ok <==> offset + length <= u64::MAX,
            r matches Err(e) ==> e is RangeOverflow,
    {
        if length > u64::MAX - offset {
            Err(RecoveryError::RangeOverflow)
        } else {
            Ok(ByteRange { offset, length })
        }
    }

    /// The exclusive end of the range.
    pub fn end(&self) -> (r: RecoveryResult<u64>)
        ensures
            r matches Ok(end) ==> end == self.spec_end(),
            r is Ok <==> self.spec_end() <= u64::MAX,
            r matches Err(e) ==> e is RangeOverflow,
    {
        if self.length > u64::MAX - self.offset {
            Err(RecoveryError::RangeOverflow)
        } else {
            Ok(self.offset + self.length)
        }
    }

    /// Checks that the range lies within `capacity` bytes.
    pub fn validate_within(&self, capacity: u64) -> (r: RecoveryResult<()>)
        ensures
            r is Ok <==> self.within(capacity as int),
            r matches Err(e) ==> (e is RangeOverflow && self.spec_end() > u64::MAX)
                || (e is OutOfRange && self.spec_end() <= u64::MAX),
            self.spec_end() > u64::MAX ==> r == Err::<(), RecoveryError>(RecoveryError::RangeOverflow),
            self.spec_end() <= u64::MAX && !self.within(capacity as int) ==> r == Err::<(), RecoveryError>(
                RecoveryError::OutOfRange { offset: self.offset, length: self.length, capacity },
            ),
    {
        if self.length > u64::MAX - self.offset {
            return Err(RecoveryError::RangeOverflow);
        }
        if self.offset + self.length > capacity {
            return Err(
                RecoveryError::OutOfRange {
                    offset: self.offset,
                    length: self.length,
                    capacity,
                },
            );
        }
        Ok(())
    }
}

/// A run of source bytes placed at a logical offset of a reconstructed file.
#[derive(Clone, Copy, Debug, PartialEq, Eq)]
pub struct Extent {
    pub source_range: ByteRange,
    pub logical_offset: u64,
}

impl Extent {
    /// The exclusive logical end of the extent.
    pub open spec fn logical_end(self) -> int {
        self.logical_offset + self.source_range.length
    }

    /// Builds an extent, refusing one whose source or logical end overflows.
    pub fn new(source_range: ByteRange, logical_offset: u64) -> (r: RecoveryResult<Extent>)
        ensures
            r matches Ok(e) ==> e.source_range == source_range && e.logical_offset
                == logical_offset,
            r is Ok <==> source_range.spec_end() <= u64::MAX && logical_offset
                + source_range.length <= u64::MAX,
            r matches Err(e) ==> e is RangeOverflow,
    {
        if source_range.length > u64::MAX - source_range.offset {
            return Err(RecoveryError::RangeOverflow);
        }
        if source_range.length > u64::MAX - logical_offset {
            return Err(RecoveryError::RangeOverflow);
        }
        Ok(Extent { source_range, logical_offset })
    }
}

/// Sum of the source lengths of `extents`.
pub open spec fn sum_lengths(extents: Seq<Extent>) -> int
    decreases extents.len(),
{
    if extents.len() == 0 {
        0
    } else {
        sum_lengths(extents.drop_last()) + extents.last().source_range.length
    }
}

/// Every extent starts no earlier than the logical end of the one before it.
pub open spec fn logically_ordered(extents: Seq<Extent>) -> bool {
    forall|i: int|
        #![trigger extents[i]]
        0 < i < extents.len() ==> extents[i - 1].logical_end() <= extents[i].logical_offset
}

/// No extent's logical end overflows a `u64`.
pub open spec fn logical_ends_fit(extents: Seq<Extent>) -> bool {
    forall|i: int| #![trigger extents[i]] 0 <= i < extents.len() ==> extents[i].logical_end() <= u64::MAX
}

/// Total number of source bytes the extents describe.
pub fn total_length(extents: &[Extent]) -> (r: RecoveryResult<u64>)
    ensures
        r matches Ok(total) ==> total == sum_lengths(extents@),
        r is Ok <==> sum_lengths(extents@) <= u64::MAX,
        r matches Err(e) ==> e is RangeOverflow,
{
    let mut total: u64 = 0;
    let mut i: usize = 0;
    while i < extents.len()
        invariant
            i <= extents.len(),
            total == sum_lengths(extents@.take(i as int)),
        decreases extents.len() - i,
    {
        assert(extents@.take(i + 1).drop_last() == extents@.take(i as int));
        if extents[i].source_range.length > u64::MAX - total {
            proof {
                lemma_sum_lengths_prefix_monotone(extents@, i + 1, extents.len() as int);
                assert(extents@.take(extents.len() as int) == extents@);
            }
            return Err(RecoveryError::RangeOverflow);
        }
        total = total + extents[i].source_range.length;
        i = i + 1;
    }
    assert(extents@.take(extents.len() as int) == extents@);
    Ok(total)
}

/// Sums over longer prefixes are never smaller.
pub proof fn lemma_sum_lengths_prefix_monotone(s: Seq<Extent>, i: int, j: int)
    requires
        0 <= i <= j <= s.len(),
    ensures
        sum_lengths(s.take(i)) <= sum_lengths(s.take(j)),
    decreases j - i,
{
    if i < j {
        lemma_sum_lengths_prefix_monotone(s, i, j - 1);
        assert(s.take(j).drop_last() == s.take(j - 1));
    }
}

/// Checks that extents are in logical order and do not overlap logically.
pub fn validate_logical_layout(extents: &[Extent]) -> (r: RecoveryResult<()>)
    ensures
        r is Ok <==> logically_ordered(extents@) && logical_ends_fit(extents@),
        r matches Err(e) ==> e is IoFailure || e is RangeOverflow,
{
    let mut previous_end: u64 = 0;
    let mut i: usize = 0;
    while i < extents.len()
        invariant
            i <= extents.len(),
            logically_ordered(extents@.take(i as int)),
            logical_ends_fit(extents@.take(i as int)),
            i > 0 ==> previous_end == extents@[i - 1].logical_end(),
        decreases extents.len() - i,
    {
        let e = extents[i];
        if e.source_range.length > u64::MAX - e.logical_offset {
            assert(!logical_ends_fit(extents@)) by {
                assert(extents@[i as int] == e);
            }
            return Err(RecoveryError::RangeOverflow);
        }
        if i > 0 && e.logical_offset < previous_end {
            assert(!logically_ordered(extents@)) by {
                assert(extents@[i as int] == e);
            }
            return Err(io_error("extents overlap or are out of logical order"));
        }
        previous_end = e.logical_offset + e.source_range.length;
        proof {
            let t = extents@.take(i + 1);
            assert forall|k: int| #![trigger t[k]] 0 < k < t.len() implies t[k - 1].logical_end()
                <= t[k].logical_offset by {
                if k < i {
                    assert(t[k] == extents@.take(i as int)[k]);
                    assert(t[k - 1] == extents@.take(i as int)[k - 1]);
                }
            }
            assert forall|k: int| #![trigger t[k]] 0 <= k < t.len() implies t[k].logical_end()
                <= u64::MAX by {
                if k < i {
                    assert(t[k] == extents@.take(i as int)[k]);
                }
            }
        }
        i = i + 1;
    }
    assert(extents@.take(extents.len() as int) == extents@);
    Ok(())
}

} // verus!
