//! Partition discovery: the MBR partition table and the GUID partition
//! table.

use vstd::prelude::*;
use crate::bytes::{le_u32, spec_le_u32};
use crate::device::{read_exact, readable, span, BlockDevice};
use crate::range::{io_error, ByteRange, RecoveryError, RecoveryResult};

pub mod gpt;

verus! {

broadcast use vstd::seq_lib::group_to_multiset_ensures;

/// The sector size a disk addresses its partitions in.
#[derive(Clone, Copy, Debug, PartialEq, Eq)]
pub struct DiskGeometry {
    pub logical_sector_size: u64,
}

impl DiskGeometry {
    /// A geometry of `logical_sector_size`-byte sectors; smaller than the
    /// 512 bytes an MBR needs is refused.
    pub fn new(logical_sector_size: u64) -> (r: RecoveryResult<DiskGeometry>)
        ensures
            r is Ok <==> logical_sector_size >= 512,
            r matches Ok(g) ==> g.logical_sector_size == logical_sector_size,
    {
        if logical_sector_size < 512 {
            return Err(io_error("logical sector size below MBR minimum"));
        }
        Ok(DiskGeometry { logical_sector_size })
    }
}

/// A partition a table describes.
#[derive(Clone, Copy, Debug, PartialEq, Eq)]
pub struct PartitionCandidate {
    pub index: u8,
    pub range: ByteRange,
    pub type_code: u8,
    pub bootable: bool,
}

/// A finding about a partition table that did not stop discovery.
#[derive(Clone, Copy, Debug, PartialEq, Eq)]
pub enum Diagnostic {
    InvalidMbrSignature,
    RangeOutOfBounds { index: u8 },
    RangeOverflow { index: u8 },
    UnsupportedExtendedPartition { index: u8 },
    Overlap { left: u8, right: u8 },
    GptRangeInvalid { index: u32 },
}

/// The partitions a table yields and what was noticed on the way.
#[derive(Clone, Debug, PartialEq, Eq)]
pub struct DiscoveryResult {
    pub partitions: Vec<PartitionCandidate>,
    pub diagnostics: Vec<Diagnostic>,
}

impl Default for DiscoveryResult {
    fn default() -> (r: DiscoveryResult)
        ensures
            r.partitions@.len() == 0 && r.diagnostics@.len() == 0,
    {
        DiscoveryResult { partitions: Vec::new(), diagnostics: Vec::new() }
    }
}

/// Whether `p` starts inside `q`'s range, `q` starting first.
pub open spec fn overlaps(q: PartitionCandidate, p: PartitionCandidate) -> bool {
    q.range.offset <= p.range.offset && q.range.spec_end() <= u64::MAX && q.range.spec_end() > p.range.offset
}

/// Whether `d` reports an overlap between two distinct partitions of
/// `parts`, the left one starting first.
pub open spec fn is_overlap_report(d: Diagnostic, parts: Seq<PartitionCandidate>) -> bool {
    exists|i: int, j: int|
        0 <= i < parts.len() && 0 <= j < parts.len() && i != j && overlaps(parts[i], parts[j]) && d == (
        Diagnostic::Overlap { left: parts[i].index, right: parts[j].index })
}

/// Whether partitions are ordered by their start offset.
pub open spec fn sorted_by_offset(s: Seq<PartitionCandidate>) -> bool {
    forall|i: int, j: int| 0 <= i < j < s.len() ==> #[trigger] s[i].range.offset <= #[trigger] s[j].range.offset
}

/// How many leading partitions of `s` start no later than `p`: where a
/// stable insertion places `p`.
pub open spec fn insertion_point(s: Seq<PartitionCandidate>, p: PartitionCandidate) -> nat
    decreases s.len(),
{
    if s.len() == 0 {
        0
    } else if s[0].range.offset <= p.range.offset {
        1 + insertion_point(s.drop_first(), p)
    } else {
        0
    }
}

/// The partitions ordered by start offset, ties kept in their original
/// order (a stable insertion sort).
pub open spec fn sort_by_offset(s: Seq<PartitionCandidate>) -> Seq<PartitionCandidate>
    decreases s.len(),
{
    if s.len() == 0 {
        s
    } else {
        let r = sort_by_offset(s.drop_last());
        r.insert(insertion_point(r, s.last()) as int, s.last())
    }
}

/// The overlap reports for a sequence ordered by offset: one for each
/// neighbour that starts before the end of the one before it.
pub open spec fn overlap_reports(s: Seq<PartitionCandidate>) -> Seq<Diagnostic>
    decreases s.len(),
{
    if s.len() < 2 {
        Seq::empty()
    } else {
        let prev = overlap_reports(s.drop_last());
        let left = s[s.len() - 2];
        let right = s.last();
        if left.range.spec_end() <= u64::MAX && left.range.spec_end() > right.range.offset {
            prev.push(Diagnostic::Overlap { left: left.index, right: right.index })
        } else {
            prev
        }
    }
}

proof fn lemma_insertion_point(s: Seq<PartitionCandidate>, p: PartitionCandidate, pos: int)
    requires
        0 <= pos <= s.len(),
        forall|j: int| 0 <= j < pos ==> #[trigger] s[j].range.offset <= p.range.offset,
        pos < s.len() ==> s[pos].range.offset > p.range.offset,
    ensures
        insertion_point(s, p) == pos,
    decreases pos,
{
    if pos > 0 {
        let t = s.drop_first();
        assert forall|j: int| 0 <= j < pos - 1 implies #[trigger] t[j].range.offset <= p.range.offset by {
            assert(t[j] == s[j + 1]);
        }
        if pos - 1 < t.len() {
            assert(t[pos - 1] == s[pos]);
        }
        lemma_insertion_point(t, p, pos - 1);
        assert(s[0].range.offset <= p.range.offset);
    }
}

/// The partitions ordered by start offset, ties in their original order.
fn ordered_partitions(parts: &Vec<PartitionCandidate>) -> (r: Vec<PartitionCandidate>)
    ensures
        sorted_by_offset(r@),
        r@.to_multiset() == parts@.to_multiset(),
        r@ == sort_by_offset(parts@),
{
    let mut out: Vec<PartitionCandidate> = Vec::new();
    let mut k: usize = 0;
    while k < parts.len()
        invariant
            k <= parts@.len(),
            sorted_by_offset(out@),
            out@.to_multiset() == parts@.take(k as int).to_multiset(),
            out@ == sort_by_offset(parts@.take(k as int)),
        decreases parts@.len() - k,
    {
        let p = parts[k];
        let mut pos: usize = 0;
        while pos < out.len() && out[pos].range.offset <= p.range.offset
            invariant
                pos <= out@.len(),
                forall|j: int| 0 <= j < pos ==> #[trigger] out@[j].range.offset <= p.range.offset,
            decreases out@.len() - pos,
        {
            pos = pos + 1;
        }
        let ghost before = out@;
        assert(sorted_by_offset(before));
        assert(pos < before.len() ==> before[pos as int].range.offset > p.range.offset);
        proof {
            vstd::seq_lib::to_multiset_insert(before, pos as int, p);
            assert(parts@.take(k + 1) == parts@.take(k as int).push(p));
            vstd::seq_lib::to_multiset_build(parts@.take(k as int), p);
            lemma_insertion_point(before, p, pos as int);
            assert(parts@.take(k + 1).drop_last() == parts@.take(k as int));
        }
        out.insert(pos, p);
        assert forall|i: int, j: int| 0 <= i < j < out@.len() implies #[trigger] out@[i].range.offset
            <= #[trigger] out@[j].range.offset by {
            if j < pos {
                assert(out@[i] == before[i] && out@[j] == before[j]);
                assert(before[i].range.offset <= before[j].range.offset);
            } else if j == pos {
                assert(out@[i] == before[i]);
                assert(out@[j] == p);
            } else if i == pos {
                assert(out@[i] == p);
                assert(out@[j] == before[j - 1]);
                assert(pos < before.len());
                assert(before[pos as int].range.offset <= before[j - 1].range.offset);
            } else if i < pos {
                assert(out@[i] == before[i] && out@[j] == before[j - 1]);
                assert(before[i].range.offset <= before[j - 1].range.offset);
            } else {
                assert(out@[i] == before[i - 1] && out@[j] == before[j - 1]);
                assert(before[i - 1].range.offset <= before[j - 1].range.offset);
            }
        }
        k = k + 1;
    }
    assert(parts@.take(parts@.len() as int) == parts@);
    out
}

/// Records an overlap for each pair of partitions, taken in order of start
/// offset, where the next one starts before the previous one ends.
pub fn detect_overlaps(result: &mut DiscoveryResult)
    ensures
        final(result).partitions@ == old(result).partitions@,
        final(result).diagnostics@.len() >= old(result).diagnostics@.len(),
        final(result).diagnostics@.subrange(0, old(result).diagnostics@.len() as int) == old(
            result,
        ).diagnostics@,
        forall|k: int|
            old(result).diagnostics@.len() <= k < final(result).diagnostics@.len() ==> #[trigger] is_overlap_report(
                final(result).diagnostics@[k],
                old(result).partitions@,
            ),
        final(result).diagnostics@ == old(result).diagnostics@ + overlap_reports(
            sort_by_offset(old(result).partitions@),
        ),
{
    let ordered = ordered_partitions(&result.partitions);
    let ghost parts = result.partitions@;
    let ghost start = result.diagnostics@;
    let mut k: usize = 1;
    while k < ordered.len()
        invariant
            1 <= k,
            ordered@.to_multiset() == parts.to_multiset(),
            sorted_by_offset(ordered@),
            result.partitions@ == parts,
            result.diagnostics@.len() >= start.len(),
            result.diagnostics@.subrange(0, start.len() as int) == start,
            forall|d: int|
                start.len() <= d < result.diagnostics@.len() ==> #[trigger] is_overlap_report(result.diagnostics@[d], parts),
            ordered@ == sort_by_offset(parts),
            ordered@.len() == 0 ==> result.diagnostics@ == start,
            ordered@.len() > 0 ==> k <= ordered@.len() && result.diagnostics@ == start + overlap_reports(
                ordered@.take(k as int),
            ),
        decreases ordered@.len() - k,
    {
        let ghost pre = ordered@.take(k as int + 1);
        let ghost diag_before = result.diagnostics@;
        assert(pre.drop_last() == ordered@.take(k as int));
        assert(pre[pre.len() - 2] == ordered@[k - 1]);
        assert(pre.last() == ordered@[k as int]);
        let left = ordered[k - 1];
        let right = ordered[k];
        match left.range.end() {
            Ok(end) => {
                if end > right.range.offset {
                    proof {
                        vstd::seq_lib::to_multiset_contains(ordered@, left);
                        vstd::seq_lib::to_multiset_contains(parts, left);
                        vstd::seq_lib::to_multiset_contains(ordered@, right);
                        vstd::seq_lib::to_multiset_contains(parts, right);
                        assert(ordered@.contains(left) && ordered@.contains(right));
                        let i = choose|i: int| 0 <= i < parts.len() && parts[i] == left;
                        let ghost rest = ordered@.remove(k - 1);
                        vstd::seq_lib::to_multiset_remove(ordered@, k - 1);
                        let j = if parts[i] == right {
                            assert(ordered@.to_multiset().count(right) >= 2) by {
                                assert(rest[k - 1] == right);
                                vstd::seq_lib::to_multiset_contains(rest, right);
                            }
                            vstd::seq_lib::to_multiset_remove(parts, i);
                            vstd::seq_lib::to_multiset_contains(parts.remove(i), right);
                            let j0 = choose|j0: int| 0 <= j0 < parts.remove(i).len() && parts.remove(i)[j0] == right;
                            if j0 < i {
                                j0
                            } else {
                                j0 + 1
                            }
                        } else {
                            choose|j: int| 0 <= j < parts.len() && parts[j] == right
                        };
                        assert(overlaps(parts[i], parts[j]));
                        assert(is_overlap_report(Diagnostic::Overlap { left: left.index, right: right.index }, parts));
                    }
                    let ghost before = result.diagnostics@;
                    result.diagnostics.push(Diagnostic::Overlap { left: left.index, right: right.index });
                    assert(result.diagnostics@ == start + overlap_reports(pre));
                    assert(result.diagnostics@.subrange(0, start.len() as int) == before.subrange(0, start.len() as int));
                    assert forall|d: int|
                        start.len() <= d < result.diagnostics@.len() implies #[trigger] is_overlap_report(
                            result.diagnostics@[d],
                            parts,
                        ) by {
                        if d < before.len() {
                            assert(result.diagnostics@[d] == before[d]);
                        }
                    }
                }
            },
            Err(_) => {},
        }
        assert(result.diagnostics@ == start + overlap_reports(pre));
        k = k + 1;
    }
    if ordered.len() > 0 {
        assert(ordered@.take(k as int) == ordered@);
    } else {
        assert(overlap_reports(ordered@) == Seq::<Diagnostic>::empty());
        assert(result.diagnostics@ == start + Seq::<Diagnostic>::empty());
    }
}

/// Reads exactly `output.len()` bytes at `offset` into `output`.
pub fn read_exact_at<D: BlockDevice>(device: &D, offset: u64, output: &mut Vec<u8>) -> (r: RecoveryResult<()>)
    ensures
        final(output)@.len() == old(output)@.len(),
        r is Ok ==> offset + old(output)@.len() <= device.contents().len() && final(output)@ == span(
            device,
            offset as int,
            old(output)@.len() as int,
        ),
        readable(device) && offset + old(output)@.len() <= device.contents().len() ==> r is Ok,
{
    let length = output.len() as u64;
    let bytes = read_exact(device, offset, length)?;
    let mut i: usize = 0;
    while i < bytes.len()
        invariant
            i <= bytes@.len(),
            bytes@.len() == output@.len(),
            output@.len() == old(output)@.len(),
            forall|j: int| 0 <= j < i ==> output@[j] == bytes@[j],
        decreases bytes@.len() - i,
    {
        output.set(i, bytes[i]);
        i = i + 1;
    }
    assert(output@ =~= bytes@);
    Ok(())
}

pub const MBR_SIZE: usize = 512;
pub const SIGNATURE_OFFSET: usize = 510;
pub const PARTITION_TABLE_OFFSET: usize = 446;
pub const PARTITION_ENTRY_SIZE: usize = 16;
pub const PARTITION_COUNT: usize = 4;

/// One entry of an MBR partition table.
#[derive(Clone, Copy, Debug, PartialEq, Eq)]
pub struct MbrEntry {
    pub index: u8,
    pub bootable: bool,
    pub type_code: u8,
    pub start_lba: u32,
    pub sector_count: u32,
}

/// The `i`-th entry of the partition table in `sector`.
pub open spec fn mbr_entry_of(sector: Seq<u8>, i: int) -> MbrEntry {
    let o = PARTITION_TABLE_OFFSET + i * PARTITION_ENTRY_SIZE;
    MbrEntry {
        index: i as u8,
        bootable: sector[o] == 0x80,
        type_code: sector[o + 4],
        start_lba: spec_le_u32(sector, o + 8) as u32,
        sector_count: spec_le_u32(sector, o + 12) as u32,
    }
}

/// Whether a partition type marks an extended partition.
pub open spec fn is_extended_type(t: u8) -> bool {
    t == 0x05 || t == 0x0F || t == 0x85
}

impl MbrEntry {
    /// Reads the 16-byte entry `bytes` as entry `index`.
    pub fn parse(index: u8, bytes: &[u8]) -> (r: MbrEntry)
        requires
            bytes@.len() >= PARTITION_ENTRY_SIZE,
        ensures
            r.index == index,
            r.bootable == (bytes@[0] == 0x80),
            r.type_code == bytes@[4],
            r.start_lba == spec_le_u32(bytes@, 8),
            r.sector_count == spec_le_u32(bytes@, 12),
    {
        MbrEntry {
            index,
            bootable: bytes[0] == 0x80,
            type_code: bytes[4],
            start_lba: le_u32(bytes, 8),
            sector_count: le_u32(bytes, 12),
        }
    }

    /// Whether the entry is an extended partition, which this discovery
    /// does not follow.
    pub fn is_extended(&self) -> (r: bool)
        ensures
            r == is_extended_type(self.type_code),
            r <==> (self.type_code == 0x05u8 || self.type_code == 0x0Fu8 || self.type_code == 0x85u8),
    {
        self.type_code == 0x05 || self.type_code == 0x0F || self.type_code == 0x85
    }
}

/// What one table entry contributes: nothing, a diagnostic, a partition,
/// or a failure of the whole table.
pub enum EntryOutcome {
    Skipped,
    Noted(Diagnostic),
    Found(PartitionCandidate),
    /// The entry's byte range cannot be computed; the table is refused.
    Failed,
}

/// What entry `e` contributes on a source of `capacity` bytes with
/// `sector`-byte sectors.
pub open spec fn mbr_outcome(e: MbrEntry, sector: int, capacity: int) -> EntryOutcome {
    let start = e.start_lba * sector;
    let length = e.sector_count * sector;
    if e.type_code == 0 || e.sector_count == 0 {
        EntryOutcome::Skipped
    } else if is_extended_type(e.type_code) {
        EntryOutcome::Noted(Diagnostic::UnsupportedExtendedPartition { index: e.index })
    } else if start > u64::MAX || length > u64::MAX || start + length > u64::MAX {
        EntryOutcome::Noted(Diagnostic::RangeOverflow { index: e.index })
    } else if start + length > capacity {
        EntryOutcome::Noted(Diagnostic::RangeOutOfBounds { index: e.index })
    } else {
        EntryOutcome::Found(
            PartitionCandidate {
                index: e.index,
                range: ByteRange { offset: start as u64, length: length as u64 },
                type_code: e.type_code,
                bootable: e.bootable,
            },
        )
    }
}

/// The partitions the first `k` entries yield, in table order.
pub open spec fn mbr_partitions(sector: Seq<u8>, k: int, size: int, capacity: int) -> Seq<PartitionCandidate>
    decreases k,
{
    if k <= 0 {
        Seq::empty()
    } else {
        let prev = mbr_partitions(sector, k - 1, size, capacity);
        match mbr_outcome(mbr_entry_of(sector, k - 1), size, capacity) {
            EntryOutcome::Found(p) => prev.push(p),
            _ => prev,
        }
    }
}

/// The diagnostics the first `k` entries yield, in table order.
pub open spec fn mbr_diagnostics(sector: Seq<u8>, k: int, size: int, capacity: int) -> Seq<Diagnostic>
    decreases k,
{
    if k <= 0 {
        Seq::empty()
    } else {
        let prev = mbr_diagnostics(sector, k - 1, size, capacity);
        match mbr_outcome(mbr_entry_of(sector, k - 1), size, capacity) {
            EntryOutcome::Noted(d) => prev.push(d),
            _ => prev,
        }
    }
}

/// Whether an MBR type code names an extended partition container: CHS
/// extended (0x05), LBA extended (0x0F) or Linux extended (0x85).
pub open spec fn extended_container_code(t: u8) -> bool {
    t == 0x05u8 || t == 0x0Fu8 || t == 0x85u8
}

/// No partition an MBR table yields is empty or an extended container, and
/// each non-empty entry whose type is an extended container is reported as
/// an unsupported extended partition.
pub proof fn lemma_mbr_extended_entries_reported(sector: Seq<u8>, k: int, size: int, capacity: int)
    requires
        0 <= k <= PARTITION_COUNT,
    ensures
        forall|j: int|
            0 <= j < mbr_partitions(sector, k, size, capacity).len() ==> {
                let t = (#[trigger] mbr_partitions(sector, k, size, capacity)[j]).type_code;
                t != 0 && !extended_container_code(t)
            },
        forall|i: int|
            0 <= i < k && extended_container_code(sector[PARTITION_TABLE_OFFSET + i * PARTITION_ENTRY_SIZE + 4])
                && spec_le_u32(sector, PARTITION_TABLE_OFFSET + i * PARTITION_ENTRY_SIZE + 12) != 0
                ==> #[trigger] mbr_diagnostics(sector, k, size, capacity).contains(
                Diagnostic::UnsupportedExtendedPartition { index: i as u8 },
            ),
    decreases k,
{
    if k > 0 {
        lemma_mbr_extended_entries_reported(sector, k - 1, size, capacity);
        let prev_p = mbr_partitions(sector, k - 1, size, capacity);
        let prev_d = mbr_diagnostics(sector, k - 1, size, capacity);
        let e = mbr_entry_of(sector, k - 1);
        assert forall|j: int|
            0 <= j < mbr_partitions(sector, k, size, capacity).len() implies {
                let t = (#[trigger] mbr_partitions(sector, k, size, capacity)[j]).type_code;
                t != 0 && !extended_container_code(t)
            } by {
            if j < prev_p.len() {
                assert(mbr_partitions(sector, k, size, capacity)[j] == prev_p[j]);
            }
        }
        assert forall|i: int|
            0 <= i < k && extended_container_code(sector[PARTITION_TABLE_OFFSET + i * PARTITION_ENTRY_SIZE + 4])
                && spec_le_u32(sector, PARTITION_TABLE_OFFSET + i * PARTITION_ENTRY_SIZE + 12) != 0
                implies #[trigger] mbr_diagnostics(sector, k, size, capacity).contains(
                Diagnostic::UnsupportedExtendedPartition { index: i as u8 },
            ) by {
            let d = Diagnostic::UnsupportedExtendedPartition { index: i as u8 };
            if i < k - 1 {
                assert(prev_d.contains(d));
                let w = choose|w: int| 0 <= w < prev_d.len() && prev_d[w] == d;
                assert(mbr_diagnostics(sector, k, size, capacity)[w] == d);
            } else {
                assert(e.index == i as u8);
                assert(mbr_diagnostics(sector, k, size, capacity) == prev_d.push(d));
                assert(mbr_diagnostics(sector, k, size, capacity)[prev_d.len() as int] == d);
            }
        }
    }
}

/// Reads the MBR partition table in the first 512 bytes of the source. A
/// missing boot signature yields no partitions and one diagnostic. Empty
/// entries are skipped; extended partitions, ranges that overflow and
/// ranges beyond the source are reported instead of returned; overlapping
/// partitions are reported after the entries.
pub fn discover_mbr<D: BlockDevice>(device: &D, geometry: DiskGeometry) -> (r: RecoveryResult<DiscoveryResult>)
    ensures
        r matches Ok(res) ==> {
            let sector = span(device, 0, MBR_SIZE as int);
            let size = geometry.logical_sector_size as int;
            let cap = device.contents().len() as int;
            &&& device.contents().len() >= MBR_SIZE
            &&& if sector[510] != 0x55 || sector[511] != 0xAA {
                &&& res.partitions@.len() == 0
                &&& res.diagnostics@ == seq![Diagnostic::InvalidMbrSignature]
            } else {
                &&& res.partitions@ == mbr_partitions(sector, 4, size, cap)
                &&& res.diagnostics@ == mbr_diagnostics(sector, 4, size, cap) + overlap_reports(
                    sort_by_offset(mbr_partitions(sector, 4, size, cap)),
                )
            }
        },
        device.contents().len() < MBR_SIZE ==> r is Err,
        readable(device) && device.contents().len() >= MBR_SIZE ==> r is Ok,
        r matches Ok(res) ==> forall|j: int|
            0 <= j < res.partitions@.len() ==> !extended_container_code(#[trigger] res.partitions@[j].type_code),
        r matches Ok(res) ==> forall|i: int|
            0 <= i < PARTITION_COUNT && span(device, 0, MBR_SIZE as int)[510] == 0x55 && span(device, 0, MBR_SIZE as int)[511]
                == 0xAA && extended_container_code(
                span(device, 0, MBR_SIZE as int)[PARTITION_TABLE_OFFSET + i * PARTITION_ENTRY_SIZE + 4],
            ) && spec_le_u32(span(device, 0, MBR_SIZE as int), PARTITION_TABLE_OFFSET + i * PARTITION_ENTRY_SIZE + 12)
                != 0 ==> #[trigger] res.diagnostics@.contains(Diagnostic::UnsupportedExtendedPartition { index: i as u8 }),
{
    let sector = read_exact(device, 0, MBR_SIZE as u64)?;
    let mut result = DiscoveryResult::default();
    if sector[SIGNATURE_OFFSET] != 0x55 || sector[SIGNATURE_OFFSET + 1] != 0xAA {
        result.diagnostics.push(Diagnostic::InvalidMbrSignature);
        return Ok(result);
    }
    let capacity = device.capacity();
    let size = geometry.logical_sector_size;
    let mut i: usize = 0;
    while i < PARTITION_COUNT
        invariant
            i <= PARTITION_COUNT,
            sector@ == span(device, 0, MBR_SIZE as int),
            sector@.len() == MBR_SIZE,
            capacity == device.contents().len(),
            size == geometry.logical_sector_size,
            result.partitions@ == mbr_partitions(sector@, i as int, size as int, capacity as int),
            result.diagnostics@ == mbr_diagnostics(sector@, i as int, size as int, capacity as int),
        decreases PARTITION_COUNT - i,
    {
        let offset = PARTITION_TABLE_OFFSET + i * PARTITION_ENTRY_SIZE;
        let bytes = crate::bytes::copy_range(sector.as_slice(), offset, offset + PARTITION_ENTRY_SIZE);
        let entry = MbrEntry::parse(i as u8, bytes.as_slice());
        assert(entry == mbr_entry_of(sector@, i as int)) by {
            assert forall|j: int| 0 <= j < 16 implies bytes@[j] == sector@[offset + j] by {}
            assert(bytes@[0] == sector@[offset + 0]);
            assert(bytes@[4] == sector@[offset + 4]);
            assert(bytes@[8] == sector@[offset + 8] && bytes@[9] == sector@[offset + 9]);
            assert(bytes@[10] == sector@[offset + 10] && bytes@[11] == sector@[offset + 11]);
            assert(bytes@[12] == sector@[offset + 12] && bytes@[13] == sector@[offset + 13]);
            assert(bytes@[14] == sector@[offset + 14] && bytes@[15] == sector@[offset + 15]);
        }
        if entry.type_code == 0 || entry.sector_count == 0 {
            i = i + 1;
            continue;
        }
        if entry.is_extended() {
            result.diagnostics.push(Diagnostic::UnsupportedExtendedPartition { index: entry.index });
            i = i + 1;
            continue;
        }
        let start = match (entry.start_lba as u64).checked_mul(size) {
            Some(v) => v,
            None => {
                result.diagnostics.push(Diagnostic::RangeOverflow { index: entry.index });
                i = i + 1;
                continue;
            },
        };
        let length = match (entry.sector_count as u64).checked_mul(size) {
            Some(v) => v,
            None => {
                result.diagnostics.push(Diagnostic::RangeOverflow { index: entry.index });
                i = i + 1;
                continue;
            },
        };
        let range = match ByteRange::new(start, length) {
            Ok(v) => v,
            Err(_) => {
                result.diagnostics.push(Diagnostic::RangeOverflow { index: entry.index });
                i = i + 1;
                continue;
            },
        };
        if range.validate_within(capacity).is_err() {
            result.diagnostics.push(Diagnostic::RangeOutOfBounds { index: entry.index });
            i = i + 1;
            continue;
        }
        result.partitions.push(
            PartitionCandidate { index: entry.index, range, type_code: entry.type_code, bootable: entry.bootable },
        );
        i = i + 1;
    }
    let ghost diags = result.diagnostics@;
    detect_overlaps(&mut result);
    proof {
        let size_i = size as int;
        let cap_i = capacity as int;
        lemma_mbr_extended_entries_reported(sector@, 4, size_i, cap_i);
        assert forall|i: int|
            0 <= i < PARTITION_COUNT && extended_container_code(sector@[PARTITION_TABLE_OFFSET + i * PARTITION_ENTRY_SIZE + 4])
                && spec_le_u32(sector@, PARTITION_TABLE_OFFSET + i * PARTITION_ENTRY_SIZE + 12) != 0
                implies #[trigger] result.diagnostics@.contains(Diagnostic::UnsupportedExtendedPartition { index: i as u8 }) by {
            let d = Diagnostic::UnsupportedExtendedPartition { index: i as u8 };
            assert(diags.contains(d));
            let w = choose|w: int| 0 <= w < diags.len() && diags[w] == d;
            assert(result.diagnostics@[w] == d);
        }
        assert forall|j: int| 0 <= j < result.partitions@.len() implies !extended_container_code(
            #[trigger] result.partitions@[j].type_code,
        ) by {
            assert(result.partitions@[j] == mbr_partitions(sector@, 4, size_i, cap_i)[j]);
        }
    }
    Ok(result)
}

} // verus!
