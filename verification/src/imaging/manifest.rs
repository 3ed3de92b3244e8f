//! A record of which parts of a source an image holds.

use vstd::prelude::*;
use crate::imaging::{BadRange, ImagingReport};
use crate::range::{ByteRange, RecoveryResult};

verus! {

/// The ranges of a source that were imaged and those that were not.
#[derive(Clone, Debug, PartialEq, Eq)]
pub struct ImageManifest {
    pub source_capacity: u64,
    pub completed_ranges: Vec<ByteRange>,
    pub bad_ranges: Vec<BadRange>,
}

/// Whether one of `ranges` contains byte `k`.
pub open spec fn range_covers(ranges: Seq<ByteRange>, k: int) -> bool {
    exists|i: int| 0 <= i < ranges.len() && #[trigger] ranges[i].offset <= k < ranges[i].spec_end()
}

/// Whether `ranges` together contain every byte of `[0, capacity)`.
pub open spec fn covers_source(ranges: Seq<ByteRange>, capacity: int) -> bool {
    forall|k: int| 0 <= k < capacity ==> #[trigger] range_covers(ranges, k)
}

/// Whether every one of `ranges` ends within a `u64`.
pub open spec fn ends_fit(ranges: Seq<ByteRange>) -> bool {
    forall|i: int| 0 <= i < ranges.len() ==> #[trigger] ranges[i].spec_end() <= u64::MAX
}

/// Ranges that each lie within a source of `capacity` bytes, as
/// `ImageManifest::record_completed` admits them, all end within a `u64`;
/// so on a manifest built by `ImageManifest::new` and `record_completed`,
/// `is_complete` answers exactly whether the ranges cover the source.
pub proof fn lemma_recorded_ranges_fit(ranges: Seq<ByteRange>, capacity: u64)
    requires
        forall|i: int| 0 <= i < ranges.len() ==> #[trigger] ranges[i].within(capacity as int),
    ensures
        ends_fit(ranges),
{
    assert forall|i: int| 0 <= i < ranges.len() implies #[trigger] ranges[i].spec_end() <= u64::MAX by {
        assert(ranges[i].within(capacity as int));
    }
}

/// A manifest that records the whole source as one completed range is
/// complete: that range covers every byte and ends within a `u64`.
pub proof fn lemma_whole_source_completes(capacity: u64)
    ensures
        covers_source(seq![ByteRange { offset: 0, length: capacity }], capacity as int),
        ends_fit(seq![ByteRange { offset: 0, length: capacity }]),
{
    let rs = seq![ByteRange { offset: 0, length: capacity }];
    assert forall|k: int| 0 <= k < capacity implies #[trigger] range_covers(rs, k) by {
        assert(rs[0].offset <= k < rs[0].spec_end());
    }
}

impl ImageManifest {
    /// An empty manifest for a source of `source_capacity` bytes.
    pub fn new(source_capacity: u64) -> (m: ImageManifest)
        ensures
            m.source_capacity == source_capacity,
            m.completed_ranges@.len() == 0,
            m.bad_ranges@.len() == 0,
            ends_fit(m.completed_ranges@),
    {
        ImageManifest { source_capacity, completed_ranges: Vec::new(), bad_ranges: Vec::new() }
    }

    /// Records an imaged range, refusing one outside the source.
    pub fn record_completed(&mut self, range: ByteRange) -> (r: RecoveryResult<()>)
        ensures
            r is Ok <==> range.within(old(self).source_capacity as int),
            r is Ok ==> final(self).completed_ranges@ == old(self).completed_ranges@.push(range),
            r is Err ==> final(self).completed_ranges@ == old(self).completed_ranges@,
            r matches Err(e) ==> (e is RangeOverflow || e is OutOfRange),
            final(self).source_capacity == old(self).source_capacity,
            final(self).bad_ranges@ == old(self).bad_ranges@,
            ends_fit(old(self).completed_ranges@) ==> ends_fit(final(self).completed_ranges@),
    {
        range.validate_within(self.source_capacity)?;
        self.completed_ranges.push(range);
        Ok(())
    }

    /// Records a range given up on, refusing one outside the source.
    pub fn record_bad(&mut self, bad_range: BadRange) -> (r: RecoveryResult<()>)
        ensures
            r is Ok <==> bad_range.range.within(old(self).source_capacity as int),
            r is Ok ==> final(self).bad_ranges@ == old(self).bad_ranges@.push(bad_range),
            r is Err ==> final(self).bad_ranges@ == old(self).bad_ranges@,
            r matches Err(e) ==> (e is RangeOverflow || e is OutOfRange),
            final(self).source_capacity == old(self).source_capacity,
            final(self).completed_ranges@ == old(self).completed_ranges@,
            ends_fit(old(self).completed_ranges@) ==> ends_fit(final(self).completed_ranges@),
    {
        bad_range.range.validate_within(self.source_capacity)?;
        self.bad_ranges.push(bad_range);
        Ok(())
    }

    /// Whether the completed ranges together cover the whole source.
    ///
    /// The ranges are swept in order of offset, so a range whose end does not
    /// fit in a `u64` makes the answer `false` when the sweep reaches it.
    pub fn is_complete(&self) -> (r: bool)
        ensures
            r && self.source_capacity > 0 ==> covers_source(self.completed_ranges@, self.source_capacity as int),
            self.source_capacity == 0 ==> r,
            ends_fit(self.completed_ranges@) ==> (r <==> covers_source(
                self.completed_ranges@,
                self.source_capacity as int,
            )),
    {
        if self.source_capacity == 0 {
            return true;
        }
        let ranges = &self.completed_ranges;
        let n = ranges.len();
        let mut used: Vec<bool> = Vec::new();
        while used.len() < n
            invariant
                used@.len() <= n,
                forall|i: int| 0 <= i < used@.len() ==> !used@[i],
            decreases n - used@.len(),
        {
            used.push(false);
        }
        proof {
            lemma_count_none_used(used@);
        }
        let mut cursor: u64 = 0;
        let mut done: usize = 0;
        while done < n
            invariant
                n == ranges@.len(),
                used@.len() == n,
                done <= n,
                self.source_capacity > 0,
                cursor < self.source_capacity,
                ranges@ == self.completed_ranges@,
                forall|k: int| 0 <= k < cursor ==> #[trigger] range_covers(ranges@, k),
                forall|i: int| 0 <= i < n && used@[i] ==> #[trigger] ranges@[i].spec_end() <= cursor,
                done == count_used(used@),
            decreases n - done,
        {
            let mut best: usize = n;
            let mut j: usize = 0;
            while j < n
                invariant
                    n == ranges@.len(),
                    used@.len() == n,
                    j <= n,
                    best == n || (best < j && !used@[best as int]),
                    best == n ==> forall|i: int| 0 <= i < j ==> used@[i],
                    best < n ==> forall|i: int|
                        0 <= i < j && !used@[i] ==> ranges@[best as int].offset <= #[trigger] ranges@[i].offset,
                decreases n - j,
            {
                if !used[j] {
                    if best == n || ranges[j].offset < ranges[best].offset {
                        best = j;
                    }
                }
                j = j + 1;
            }
            if best == n {
                proof {
                    lemma_count_all_used(used@);
                }
                return false;
            }
            let range = ranges[best];
            if range.offset > cursor {
                proof {
                    assert(!range_covers(ranges@, cursor as int)) by {
                        if range_covers(ranges@, cursor as int) {
                            let i = choose|i: int|
                                0 <= i < ranges@.len() && #[trigger] ranges@[i].offset <= cursor < ranges@[i].spec_end();
                            if used@[i] {
                                assert(ranges@[i].spec_end() <= cursor);
                            } else {
                                assert(range.offset <= ranges@[i].offset);
                            }
                        }
                    }
                }
                return false;
            }
            if range.length > u64::MAX - range.offset {
                return false;
            }
            let end = range.offset + range.length;
            let ghost before_used = used@;
            proof {
                lemma_count_set(used@, best as int);
            }
            used.set(best, true);
            proof {
                assert forall|k: int| cursor <= k < end implies #[trigger] range_covers(ranges@, k) by {
                    assert(ranges@[best as int].offset <= k < ranges@[best as int].spec_end());
                }
            }
            if end > cursor {
                cursor = end;
            }
            done = done + 1;
            if cursor >= self.source_capacity {
                return true;
            }
        }
        proof {
            assert(!range_covers(ranges@, cursor as int)) by {
                if range_covers(ranges@, cursor as int) {
                    let i = choose|i: int|
                        0 <= i < ranges@.len() && #[trigger] ranges@[i].offset <= cursor < ranges@[i].spec_end();
                    lemma_all_used(used@, done as int, i);
                    assert(ranges@[i].spec_end() <= cursor);
                }
            }
        }
        false
    }

    /// A manifest carrying a report's bad ranges and no completed ranges.
    pub fn from_report(source_capacity: u64, report: &ImagingReport) -> (m: ImageManifest)
        ensures
            m.source_capacity == source_capacity,
            m.completed_ranges@.len() == 0,
            m.bad_ranges@ == report.bad_ranges@,
    {
        ImageManifest { source_capacity, completed_ranges: Vec::new(), bad_ranges: report.bad_ranges.clone() }
    }
}

/// The number of `true` flags in `used`.
pub open spec fn count_used(used: Seq<bool>) -> nat
    decreases used.len(),
{
    if used.len() == 0 {
        0
    } else {
        count_used(used.drop_last()) + if used.last() {
            1nat
        } else {
            0nat
        }
    }
}

/// Setting an unset flag adds one to the count.
proof fn lemma_count_set(used: Seq<bool>, i: int)
    requires
        0 <= i < used.len(),
        !used[i],
    ensures
        count_used(used.update(i, true)) == count_used(used) + 1,
    decreases used.len(),
{
    if i == used.len() - 1 {
        assert(used.update(i, true).drop_last() =~= used.drop_last());
    } else {
        lemma_count_set(used.drop_last(), i);
        assert(used.update(i, true).drop_last() =~= used.drop_last().update(i, true));
    }
}

/// The count never exceeds the number of flags, and reaches it only when all
/// are set.
proof fn lemma_count_bound(used: Seq<bool>)
    ensures
        count_used(used) <= used.len(),
        count_used(used) == used.len() ==> forall|i: int| 0 <= i < used.len() ==> used[i],
    decreases used.len(),
{
    if used.len() > 0 {
        lemma_count_bound(used.drop_last());
        assert forall|i: int| count_used(used) == used.len() && 0 <= i < used.len() implies used[i] by {
            if i < used.len() - 1 {
                assert(used.drop_last()[i] == used[i]);
            }
        }
    }
}

/// When no flag is set, the count is zero.
proof fn lemma_count_none_used(used: Seq<bool>)
    requires
        forall|i: int| 0 <= i < used.len() ==> !used[i],
    ensures
        count_used(used) == 0,
    decreases used.len(),
{
    if used.len() > 0 {
        lemma_count_none_used(used.drop_last());
    }
}

/// When no flag is unset, the count is the number of flags.
proof fn lemma_count_all_used(used: Seq<bool>)
    requires
        forall|i: int| 0 <= i < used.len() ==> used[i],
    ensures
        count_used(used) == used.len(),
    decreases used.len(),
{
    if used.len() > 0 {
        lemma_count_all_used(used.drop_last());
    }
}

/// When the count is the number of flags, flag `i` is set.
proof fn lemma_all_used(used: Seq<bool>, done: int, i: int)
    requires
        done == count_used(used),
        done >= used.len(),
        0 <= i < used.len(),
    ensures
        used[i],
{
    lemma_count_bound(used);
}

} // verus!
