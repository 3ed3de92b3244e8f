//! Copies a failing source into an image, retrying and splitting reads and
//! recording what could not be read instead of giving up.

use vstd::prelude::*;
use crate::candidate::CancellationToken;
use crate::device::BlockDevice;
use crate::range::{io_error, ByteRange, RecoveryError, RecoveryResult};

pub mod manifest;

verus! {

/// How the imaging engine reads the source.
#[derive(Clone, Copy, Debug, PartialEq, Eq)]
pub struct ImagingPolicy {
    /// The size of the reads the source is first asked for.
    pub chunk_size: u64,
    /// How many times a failed read is repeated before the range is split.
    pub max_retries: usize,
    /// The smallest range a failed read is split into.
    pub min_chunk_size: u64,
}

impl ImagingPolicy {
    /// Whether the policy's sizes are usable.
    pub open spec fn spec_valid(self) -> bool {
        &&& self.chunk_size > 0
        &&& self.min_chunk_size > 0
        &&& self.min_chunk_size <= self.chunk_size
    }

    /// Accepts a policy whose chunk sizes are positive and ordered.
    pub fn validate(self) -> (r: RecoveryResult<()>)
        ensures
            r is Ok <==> self.spec_valid(),
            r matches Err(e) ==> e is IoFailure,
    {
        if self.chunk_size == 0 || self.min_chunk_size == 0 || self.min_chunk_size > self.chunk_size {
            return Err(io_error("invalid imaging policy"));
        }
        Ok(())
    }
}

/// A range that stayed unreadable after every retry.
#[derive(Clone, Copy, Debug, PartialEq, Eq)]
pub struct BadRange {
    pub range: ByteRange,
    pub attempts: usize,
}

/// What an imaging run copied and what it had to skip.
#[derive(Clone, Debug, PartialEq, Eq)]
pub struct ImagingReport {
    pub bytes_copied: u64,
    pub bad_ranges: Vec<BadRange>,
}

impl Default for ImagingReport {
    fn default() -> (r: ImagingReport)
        ensures
            r.bytes_copied == 0,
            r.bad_ranges@.len() == 0,
    {
        ImagingReport { bytes_copied: 0, bad_ranges: Vec::new() }
    }
}

/// `after` keeps every byte of `before` outside `[lo, hi)`.
pub open spec fn unchanged_outside(before: Map<int, u8>, after: Map<int, u8>, lo: int, hi: int) -> bool {
    forall|k: int|
        #![trigger before.contains_key(k)]
        !(lo <= k < hi) && before.contains_key(k) ==> after.contains_key(k) && after[k] == before[k]
}

/// `after` is `before` with `data` written at `offset`.
pub open spec fn write_effect(before: Map<int, u8>, after: Map<int, u8>, offset: int, data: Seq<u8>) -> bool {
    &&& forall|k: int|
        #![trigger after.contains_key(k)]
        offset <= k < offset + data.len() ==> after.contains_key(k) && after[k] == data[k - offset]
    &&& unchanged_outside(before, after, offset, offset + data.len())
}

/// The destination of an image.
pub trait ImageSink {
    /// The bytes held so far, by position.
    spec fn written(&self) -> Map<int, u8>;

    /// Whether every write whose end fits a `usize` succeeds. A destination
    /// that can run out of space does not promise this.
    spec fn accepts_all(&self) -> bool;

    /// Writes `data` at `offset`.
    fn write(&mut self, offset: u64, data: &[u8]) -> (r: RecoveryResult<()>)
        ensures
            r is Ok ==> write_effect(old(self).written(), final(self).written(), offset as int, data@),
            old(self).accepts_all() && offset + data@.len() <= usize::MAX ==> r is Ok && final(self).accepts_all(),
    ;
}

/// Observes an imaging run.
pub trait ImagingProgress {
    /// Called after each successful copy with the running total.
    fn copied(&mut self, bytes_copied: u64, total_bytes: u64);

    /// Called for each range given up on.
    fn bad_range(&mut self, bad_range: BadRange);
}

/// A progress observer that ignores everything.
pub struct NoProgress;

impl ImagingProgress for NoProgress {
    fn copied(&mut self, bytes_copied: u64, total_bytes: u64) {
    }

    fn bad_range(&mut self, bad_range: BadRange) {
    }
}

/// An image held in memory.
#[derive(Clone, Debug, Default)]
pub struct MemorySink {
    pub bytes: Vec<u8>,
}

impl ImageSink for MemorySink {
    open spec fn written(&self) -> Map<int, u8> {
        Map::new(|k: int| 0 <= k < self.bytes@.len(), |k: int| self.bytes@[k])
    }

    open spec fn accepts_all(&self) -> bool {
        true
    }

    fn write(&mut self, offset: u64, data: &[u8]) -> (r: RecoveryResult<()>)
        ensures
            r is Ok <==> offset + data@.len() <= usize::MAX,
            r is Err ==> final(self).bytes@ == old(self).bytes@,
            r is Ok ==> final(self).bytes@.len() == (if offset + data@.len() > old(self).bytes@.len() {
                offset + data@.len()
            } else {
                old(self).bytes@.len() as int
            }),
            r is Ok ==> forall|k: int|
                old(self).bytes@.len() <= k < offset ==> #[trigger] final(self).bytes@[k] == 0,
    {
        if offset > usize::MAX as u64 || data.len() > usize::MAX - offset as usize {
            return Err(RecoveryError::RangeOverflow);
        }
        let start = offset as usize;
        let end = start + data.len();
        while self.bytes.len() < end
            invariant
                old(self).bytes@.len() <= self.bytes@.len(),
                forall|k: int| 0 <= k < old(self).bytes@.len() ==> self.bytes@[k] == old(self).bytes@[k],
                forall|k: int| old(self).bytes@.len() <= k < self.bytes@.len() ==> self.bytes@[k] == 0,
                self.bytes@.len() <= (if end > old(self).bytes@.len() { end as int } else { old(self).bytes@.len() as int }),
            decreases end - self.bytes@.len(),
        {
            self.bytes.push(0);
        }
        let ghost grown = self.bytes@;
        assert(forall|k: int| old(self).bytes@.len() <= k < grown.len() ==> grown[k] == 0);
        let mut i: usize = 0;
        while i < data.len()
            invariant
                end == start + data@.len(),
                end <= self.bytes@.len(),
                self.bytes@.len() == grown.len(),
                i <= data@.len(),
                forall|k: int| 0 <= k < i ==> self.bytes@[start + k] == data@[k],
                forall|k: int| 0 <= k < grown.len() && !(start <= k < start + i) ==> self.bytes@[k] == grown[k],
                forall|k: int| old(self).bytes@.len() <= k < grown.len() ==> grown[k] == 0,
            decreases data@.len() - i,
        {
            self.bytes.set(start + i, data[i]);
            i = i + 1;
        }
        assert forall|k: int| old(self).bytes@.len() <= k < offset implies #[trigger] self.bytes@[k] == 0 by {
            assert(self.bytes@[k] == grown[k]);
        }
        proof {
            assert forall|k: int| offset <= k < offset + data@.len() implies self.written().contains_key(k)
                && self.written()[k] == data@[k - offset] by {
                assert(self.bytes@[start + (k - start)] == data@[k - start]);
            }
            assert forall|k: int|
                !(offset <= k < offset + data@.len()) && old(self).written().contains_key(k) implies
                self.written().contains_key(k) && self.written()[k] == old(self).written()[k] by {
                assert(self.bytes@[k] == grown[k]);
                assert(grown[k] == old(self).bytes@[k]);
            }
        }
        Ok(())
    }
}

/// Whether byte `k` of the image holds byte `k` of the source.
pub open spec fn copied_at(written: Map<int, u8>, contents: Seq<u8>, k: int) -> bool {
    written.contains_key(k) && written[k] == contents[k]
}

/// Whether byte `k` lies in one of `bad`.
pub open spec fn in_bad(bad: Seq<BadRange>, k: int) -> bool {
    exists|i: int| 0 <= i < bad.len() && #[trigger] bad[i].range.offset <= k < bad[i].range.spec_end()
}

/// The number of bytes `bad` spans.
pub open spec fn bad_total(bad: Seq<BadRange>) -> nat
    decreases bad.len(),
{
    if bad.len() == 0 {
        0
    } else {
        bad_total(bad.drop_last()) + bad.last().range.length as nat
    }
}

/// Every byte of `[lo, hi)` was copied or lies in a bad range.
pub open spec fn covered(written: Map<int, u8>, contents: Seq<u8>, bad: Seq<BadRange>, lo: int, hi: int) -> bool {
    forall|k: int| #![trigger written.contains_key(k)] lo <= k < hi ==> copied_at(written, contents, k) || in_bad(bad, k)
}

/// Each of `bad` lies in `[lo, hi)`, is no longer than `min_chunk` and was
/// tried `attempts` times.
pub open spec fn bad_ranges_well_formed(bad: Seq<BadRange>, lo: int, hi: int, min_chunk: u64, attempts: int) -> bool {
    forall|i: int|
        0 <= i < bad.len() ==> {
            &&& lo <= #[trigger] bad[i].range.offset
            &&& bad[i].range.spec_end() <= hi
            &&& 0 < bad[i].range.length <= min_chunk
            &&& bad[i].attempts == attempts
        }
}

/// Byte totals and membership distribute over concatenation.
pub proof fn lemma_bad_concat(a: Seq<BadRange>, b: Seq<BadRange>)
    ensures
        bad_total(a + b) == bad_total(a) + bad_total(b),
        forall|k: int| in_bad(a, k) ==> in_bad(a + b, k),
        forall|k: int| in_bad(b, k) ==> in_bad(a + b, k),
    decreases b.len(),
{
    if b.len() == 0 {
        assert(a + b == a);
    } else {
        lemma_bad_concat(a, b.drop_last());
        assert((a + b).drop_last() == a + b.drop_last());
    }
    assert forall|k: int| in_bad(a, k) implies in_bad(a + b, k) by {
        let i = choose|i: int| 0 <= i < a.len() && #[trigger] a[i].range.offset <= k < a[i].range.spec_end();
        assert((a + b)[i] == a[i]);
    }
    assert forall|k: int| in_bad(b, k) implies in_bad(a + b, k) by {
        let i = choose|i: int| 0 <= i < b.len() && #[trigger] b[i].range.offset <= k < b[i].range.spec_end();
        assert((a + b)[a.len() + i] == b[i]);
    }
}

/// Copies a source into a sink.
pub struct ImagingEngine {
    policy: ImagingPolicy,
}

impl ImagingEngine {
    /// The engine's policy.
    pub closed spec fn policy(&self) -> ImagingPolicy {
        self.policy
    }

    /// An engine for a valid policy.
    pub fn new(policy: ImagingPolicy) -> (r: RecoveryResult<ImagingEngine>)
        ensures
            r is Ok <==> policy.spec_valid(),
            r matches Ok(e) ==> e.policy() == policy,
            r matches Err(e) ==> e is IoFailure,
    {
        policy.validate()?;
        Ok(ImagingEngine { policy })
    }

    /// Images the whole source without reporting progress.
    pub fn image<D: BlockDevice, S: ImageSink>(
        &self,
        source: &D,
        sink: &mut S,
        cancellation: &CancellationToken,
    ) -> (r: RecoveryResult<ImagingReport>)
        requires
            self.policy().spec_valid(),
            self.policy().max_retries < usize::MAX,
        ensures
            r matches Ok(report) ==> imaged(
                source.contents(),
                final(sink).written(),
                report,
                self.policy(),
            ),
            cancellation.spec_cancelled() ==> (r is Err <==> source.contents().len() > 0),
            cancellation.spec_cancelled() && r is Err ==> (r matches Err(e) && e is Cancelled),
            cancellation.spec_cancelled() ==> final(sink).written() == old(sink).written(),
            !cancellation.spec_cancelled() && old(sink).accepts_all() && source.contents().len() <= usize::MAX ==> r is Ok,
    {
        let mut progress = NoProgress;
        self.image_with_progress(source, sink, cancellation, &mut progress)
    }

    /// Images the whole source chunk by chunk, reporting each copy and each
    /// range given up on to `progress`.
    pub fn image_with_progress<D: BlockDevice, S: ImageSink, P: ImagingProgress>(
        &self,
        source: &D,
        sink: &mut S,
        cancellation: &CancellationToken,
        progress: &mut P,
    ) -> (r: RecoveryResult<ImagingReport>)
        requires
            self.policy().spec_valid(),
            self.policy().max_retries < usize::MAX,
        ensures
            r matches Ok(report) ==> imaged(
                source.contents(),
                final(sink).written(),
                report,
                self.policy(),
            ),
            cancellation.spec_cancelled() ==> (r is Err <==> source.contents().len() > 0),
            cancellation.spec_cancelled() && r is Err ==> (r matches Err(e) && e is Cancelled),
            cancellation.spec_cancelled() ==> final(sink).written() == old(sink).written(),
            !cancellation.spec_cancelled() && old(sink).accepts_all() && source.contents().len() <= usize::MAX ==> r is Ok,
    {
        let mut report = ImagingReport::default();
        let mut offset: u64 = 0;
        let capacity = source.capacity();
        while offset < capacity
            invariant
                offset <= capacity,
                capacity == source.contents().len(),
                self.policy.spec_valid(),
                self.policy.max_retries < usize::MAX,
                report.bytes_copied + bad_total(report.bad_ranges@) == offset,
                covered(sink.written(), source.contents(), report.bad_ranges@, 0, offset as int),
                bad_ranges_well_formed(
                    report.bad_ranges@,
                    0,
                    offset as int,
                    self.policy.min_chunk_size,
                    self.policy.max_retries + 1,
                ),
                cancellation.spec_cancelled() ==> offset == 0,
                cancellation.spec_cancelled() ==> sink.written() == old(sink).written(),
                old(sink).accepts_all() && capacity <= usize::MAX && !cancellation.spec_cancelled() ==> sink.accepts_all(),
            decreases capacity - offset,
        {
            if cancellation.is_cancelled() {
                return Err(RecoveryError::Cancelled);
            }
            let length = if self.policy.chunk_size < capacity - offset {
                self.policy.chunk_size
            } else {
                capacity - offset
            };
            let range = ByteRange::new(offset, length)?;
            let ghost before_bad = report.bad_ranges@;
            let ghost before_written = sink.written();
            self.copy_range(source, sink, range, cancellation, &mut report, capacity, progress)?;
            proof {
                let added = report.bad_ranges@.subrange(before_bad.len() as int, report.bad_ranges@.len() as int);
                assert(report.bad_ranges@ == before_bad + added);
                lemma_bad_concat(before_bad, added);
                assert forall|k: int| 0 <= k < offset + length implies #[trigger] sink.written().contains_key(k)
                    && sink.written()[k] == source.contents()[k] || in_bad(report.bad_ranges@, k) by {
                    if k < offset {
                        if copied_at(before_written, source.contents(), k) {
                            assert(before_written.contains_key(k));
                        } else {
                            assert(in_bad(before_bad, k));
                        }
                    } else {
                        if !copied_at(sink.written(), source.contents(), k) {
                            assert(in_bad(added, k));
                        }
                    }
                }
                assert forall|i: int| 0 <= i < report.bad_ranges@.len() implies {
                    &&& 0 <= #[trigger] report.bad_ranges@[i].range.offset
                    &&& report.bad_ranges@[i].range.spec_end() <= offset + length
                    &&& 0 < report.bad_ranges@[i].range.length <= self.policy.min_chunk_size
                    &&& report.bad_ranges@[i].attempts == self.policy.max_retries + 1
                } by {
                    if i >= before_bad.len() {
                        assert(report.bad_ranges@[i] == added[i - before_bad.len()]);
                    } else {
                        assert(report.bad_ranges@[i] == before_bad[i]);
                    }
                }
            }
            offset = offset + length;
        }
        Ok(report)
    }

    /// Copies `range`, retrying a failed read and then splitting it down to
    /// the policy's smallest chunk, recording what stays unreadable.
    #[verifier::spinoff_prover]
    #[verifier::rlimit(60)]
    fn copy_range<D: BlockDevice, S: ImageSink, P: ImagingProgress>(
        &self,
        source: &D,
        sink: &mut S,
        range: ByteRange,
        cancellation: &CancellationToken,
        report: &mut ImagingReport,
        total_bytes: u64,
        progress: &mut P,
    ) -> (r: RecoveryResult<()>)
        requires
            self.policy.spec_valid(),
            self.policy.max_retries < usize::MAX,
            range.length > 0,
            range.spec_end() <= total_bytes,
            total_bytes == source.contents().len(),
            old(report).bytes_copied <= range.offset,
        ensures
            r is Ok ==> {
                let old_len = old(report).bad_ranges@.len() as int;
                let added = final(report).bad_ranges@.subrange(old_len, final(report).bad_ranges@.len() as int);
                &&& old_len <= final(report).bad_ranges@.len()
                &&& final(report).bad_ranges@.subrange(0, old_len) == old(report).bad_ranges@
                &&& final(report).bytes_copied + bad_total(added) == old(report).bytes_copied + range.length
                &&& covered(final(sink).written(), source.contents(), added, range.offset as int, range.spec_end())
                &&& unchanged_outside(old(sink).written(), final(sink).written(), range.offset as int, range.spec_end())
                &&& bad_ranges_well_formed(
                    added,
                    range.offset as int,
                    range.spec_end(),
                    self.policy.min_chunk_size,
                    self.policy.max_retries + 1,
                )
            },
            r is Ok && old(sink).accepts_all() && range.spec_end() <= usize::MAX ==> final(sink).accepts_all(),
            !cancellation.spec_cancelled() && old(sink).accepts_all() && range.spec_end() <= usize::MAX ==> r is Ok,
            cancellation.spec_cancelled() ==> (r matches Err(e) && e is Cancelled),
        decreases range.length,
    {
        if cancellation.is_cancelled() {
            return Err(RecoveryError::Cancelled);
        }
        if range.length > usize::MAX as u64 {
            return Err(RecoveryError::LengthTooLarge { length: range.length });
        }
        let ghost old_bad = report.bad_ranges@;
        let ghost old_written = sink.written();
        let mut retries: usize = 0;
        loop
            invariant
                retries <= self.policy.max_retries,
                self.policy.max_retries < usize::MAX,
                old(report).bytes_copied <= range.offset,
                range.spec_end() <= total_bytes,
                total_bytes == source.contents().len(),
                report.bad_ranges@ == old_bad,
                old_bad == old(report).bad_ranges@,
                report.bytes_copied == old(report).bytes_copied,
                sink.written() == old_written,
                old_written == old(sink).written(),
                sink.accepts_all() == old(sink).accepts_all(),
                !cancellation.spec_cancelled(),
            ensures
                sink.accepts_all() == old(sink).accepts_all(),
                retries == self.policy.max_retries,
                report.bad_ranges@ == old_bad,
                report.bytes_copied == old(report).bytes_copied,
                sink.written() == old_written,
            decreases self.policy.max_retries - retries,
        {
            match source.read(range) {
                Ok(buffer) => {
                    if buffer.len() as u64 == range.length {
                        sink.write(range.offset, buffer.as_slice())?;
                        report.bytes_copied = report.bytes_copied + range.length;
                        progress.copied(report.bytes_copied, total_bytes);
                        proof {
                            assert(report.bad_ranges@.subrange(old_bad.len() as int, old_bad.len() as int) =~= Seq::<BadRange>::empty());
                            assert(report.bad_ranges@.subrange(0, old_bad.len() as int) =~= old_bad);
                            assert forall|k: int| range.offset <= k < range.spec_end() implies
                                #[trigger] sink.written().contains_key(k) && sink.written()[k] == source.contents()[k] by {
                                assert(sink.written().contains_key(k));
                                assert(sink.written()[k] == buffer@[k - range.offset]);
                            }
                            let added = report.bad_ranges@.subrange(old_bad.len() as int, report.bad_ranges@.len() as int);
                            assert(added =~= Seq::<BadRange>::empty());
                            assert(bad_total(added) == 0);
                            assert(covered(sink.written(), source.contents(), added, range.offset as int, range.spec_end()));
                            assert(unchanged_outside(old_written, sink.written(), range.offset as int, range.spec_end()));
                            assert(bad_ranges_well_formed(added, range.offset as int, range.spec_end(), self.policy.min_chunk_size, self.policy.max_retries + 1));
                        }
                        return Ok(());
                    }
                },
                Err(_) => {},
            }
            if retries < self.policy.max_retries {
                retries = retries + 1;
            } else {
                break;
            }
        }
        let attempts = retries + 1;
        if range.length > self.policy.min_chunk_size {
            let half = range.length / 2;
            let left_length = if half > self.policy.min_chunk_size {
                half
            } else {
                self.policy.min_chunk_size
            };
            let right_length = range.length - left_length;
            let left = ByteRange::new(range.offset, left_length)?;
            self.copy_range(source, sink, left, cancellation, report, total_bytes, progress)?;
            let ghost mid_bad = report.bad_ranges@;
            let ghost mid_written = sink.written();
            let ghost left_added = mid_bad.subrange(old_bad.len() as int, mid_bad.len() as int);
            assert(bad_ranges_well_formed(
                left_added,
                range.offset as int,
                range.offset + left_length,
                self.policy.min_chunk_size,
                self.policy.max_retries + 1,
            ));
            if right_length > 0 {
                let right = ByteRange::new(range.offset + left_length, right_length)?;
                proof {
                    assert(mid_bad == old_bad + left_added);
                    lemma_bad_concat(old_bad, left_added);
                }
                self.copy_range(source, sink, right, cancellation, report, total_bytes, progress)?;
                proof {
                    let right_added = report.bad_ranges@.subrange(mid_bad.len() as int, report.bad_ranges@.len() as int);
                    let added = report.bad_ranges@.subrange(old_bad.len() as int, report.bad_ranges@.len() as int);
                    assert(report.bad_ranges@ == mid_bad + right_added);
                    assert(added =~= left_added + right_added);
                    assert(report.bad_ranges@.subrange(0, old_bad.len() as int) =~= old_bad);
                    lemma_bad_concat(left_added, right_added);
                    assert forall|k: int| range.offset <= k < range.spec_end() implies
                        #[trigger] sink.written().contains_key(k) && sink.written()[k] == source.contents()[k]
                            || in_bad(added, k) by {
                        if k < range.offset + left_length {
                            if copied_at(mid_written, source.contents(), k) {
                                assert(mid_written.contains_key(k));
                            } else {
                                assert(in_bad(left_added, k));
                            }
                        } else {
                            if !copied_at(sink.written(), source.contents(), k) {
                                assert(in_bad(right_added, k));
                            }
                        }
                    }
                    assert forall|i: int| 0 <= i < added.len() implies {
                        &&& range.offset <= #[trigger] added[i].range.offset
                        &&& added[i].range.spec_end() <= range.spec_end()
                        &&& 0 < added[i].range.length <= self.policy.min_chunk_size
                        &&& added[i].attempts == self.policy.max_retries + 1
                    } by {
                        if i >= left_added.len() {
                            assert(added[i] == right_added[i - left_added.len()]);
                            assert(right_added[i - left_added.len()].range.offset >= range.offset + left_length);
                        } else {
                            assert(added[i] == left_added[i]);
                            assert(left_added[i].range.offset >= range.offset);
                        }
                    }
                }
            } else {
                proof {
                    assert(report.bad_ranges@.subrange(0, old_bad.len() as int) =~= old_bad);
                }
            }
            return Ok(());
        }
        let bad_range = BadRange { range, attempts };
        report.bad_ranges.push(bad_range);
        progress.bad_range(bad_range);
        proof {
            let added = report.bad_ranges@.subrange(old_bad.len() as int, report.bad_ranges@.len() as int);
            assert(added =~= seq![bad_range]);
            assert(report.bad_ranges@.subrange(0, old_bad.len() as int) =~= old_bad);
            assert(bad_total(added) == bad_total(added.drop_last()) + range.length);
            assert(added.drop_last() =~= Seq::<BadRange>::empty());
            assert forall|k: int| range.offset <= k < range.spec_end() implies in_bad(added, k) by {
                assert(added[0] == bad_range);
            }
            assert(covered(sink.written(), source.contents(), added, range.offset as int, range.spec_end()));
            assert(unchanged_outside(old_written, sink.written(), range.offset as int, range.spec_end()));
            assert(bad_ranges_well_formed(added, range.offset as int, range.spec_end(), self.policy.min_chunk_size, self.policy.max_retries + 1));
            assert(report.bytes_copied + bad_total(added) == old(report).bytes_copied + range.length);
        }
        Ok(())
    }
}

/// `report` describes a finished image of `contents`: every byte was copied
/// or lies in a bad range, the copied and bad byte counts add up to the
/// source's size, and each bad range is a smallest chunk that failed every
/// attempt.
pub open spec fn imaged(contents: Seq<u8>, written: Map<int, u8>, report: ImagingReport, policy: ImagingPolicy) -> bool {
    &&& report.bytes_copied + bad_total(report.bad_ranges@) == contents.len()
    &&& covered(written, contents, report.bad_ranges@, 0, contents.len() as int)
    &&& bad_ranges_well_formed(
        report.bad_ranges@,
        0,
        contents.len() as int,
        policy.min_chunk_size,
        policy.max_retries + 1,
    )
}

} // verus!
