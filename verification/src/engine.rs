//! What a scan shows its user: partitions, candidates and the words that
//! describe them, built from the parsers' results.

use vstd::prelude::*;
use crate::candidate::{
    path_text, CancellationToken, CandidateId, Completeness, Confidence, Evidence,
    FileCandidate, Origin, Validation,
};
use crate::device::{readable, span, BlockDevice};
use crate::exfat::boot::{exfat_boot_valid, exfat_volume_of, lemma_valid_cluster_size, parse_volume, ExfatVolume};
use crate::exfat::directory::{
    chain_data, entries_of_sets, read_directory, rejections, reported_sets, set_positions, DirectoryEntry,
    EntrySetError,
    ATTR_DIRECTORY, MAX_DIRECTORY_CLUSTERS,
};
use crate::exfat::extents::{
    chain_prefix, clusters_needed, contiguous_clusters, deleted_candidate, extents_of_clusters, run_stop,
    stream_extents, DeletedCandidate, ExtentState, StreamExtents,
};
use crate::exfat::boot::FIRST_CLUSTER;
use crate::partition::gpt::{discover_gpt, gpt_header_at, gpt_header_of, gpt_lba, gpt_partitions, gpt_usable};
use crate::partition::{discover_mbr, mbr_partitions, DiskGeometry, PartitionCandidate, MBR_SIZE};
use crate::carving::registry::{registry, CarveLimits};
use crate::carving::scanner::{carve, carve_result};
use crate::carving::registry::{is_gif, is_jpeg, is_pdf, is_png, is_zip, Signature};
use crate::probe::{exfat_probe_ok, fat32_probe_ok, probe, FilesystemKind, BOOT_SECTOR_LEN};
use crate::range::{sum_lengths, ByteRange};
use crate::text::{decimal, push_decimal, push_str, string_of, zero_padded};

verus! {

/// Sector size assumed for image sources, which carry no geometry of their own.
pub const DEFAULT_SECTOR_SIZE: u64 = 512;

/// A partition as presented to the user.
#[derive(Clone, Debug, PartialEq, Eq)]
pub struct PartitionView {
    pub index: usize,
    pub offset: u64,
    pub length: u64,
    pub filesystem: String,
    /// Structural evidence supporting the classification.
    pub evidence: Vec<String>,
}

/// A recoverable file as presented to the user.
#[derive(Clone, Debug, PartialEq, Eq)]
pub struct CandidateView {
    pub id: String,
    pub name: String,
    pub path: String,
    pub origin: String,
    pub size: u64,
    pub recovered_size: u64,
    pub confidence: String,
    pub validation: String,
    pub completeness: String,
    /// Reasons behind the classification.
    pub evidence: Vec<EvidenceView>,
}

/// One reason behind a classification.
#[derive(Clone, Debug, PartialEq, Eq)]
pub struct EvidenceView {
    pub detail: String,
    pub supporting: bool,
}

/// Summary of a completed scan.
#[derive(Clone, Debug, PartialEq, Eq)]
pub struct ScanResult {
    pub source: String,
    pub capacity: u64,
    pub partitions: Vec<PartitionView>,
    pub candidates: Vec<CandidateView>,
    /// Non-fatal findings worth showing the user.
    pub diagnostics: Vec<String>,
}

/// Outcome of a recovery job.
#[derive(Clone, Debug, PartialEq, Eq)]
pub struct RecoveryResultView {
    pub written: usize,
    pub partial: usize,
    pub skipped: usize,
    pub failed: usize,
    pub destination: String,
    pub manifest_path: String,
}

/// The word for a confidence band.
pub open spec fn confidence_text(confidence: Confidence) -> Seq<char> {
    match confidence {
        Confidence::High => "high"@,
        Confidence::Medium => "medium"@,
        Confidence::Low => "low"@,
        Confidence::Unknown => "unknown"@,
    }
}

/// The word for a validation outcome.
pub open spec fn validation_text(validation: Validation) -> Seq<char> {
    match validation {
        Validation::Valid => "valid"@,
        Validation::PartiallyValid => "partial"@,
        Validation::Invalid => "invalid"@,
        Validation::Indeterminate => "indeterminate"@,
        Validation::NotAttempted => "unchecked"@,
    }
}

/// The words for a completeness.
pub open spec fn completeness_text(completeness: Completeness) -> Seq<char> {
    match completeness {
        Completeness::Complete => "complete"@,
        Completeness::Partial => "partial"@,
        Completeness::MetadataOnly => "metadata only"@,
    }
}

/// The words for an origin.
pub open spec fn origin_text(origin: Origin) -> Seq<char> {
    match origin {
        Origin::ActiveFilesystem => "file record"@,
        Origin::DeletedFilesystem => "deleted record"@,
        Origin::Carved => "carved"@,
    }
}

/// Names a confidence band.
pub fn confidence_label(confidence: Confidence) -> (r: &'static str)
    ensures
        r@ == confidence_text(confidence),
{
    match confidence {
        Confidence::High => "high",
        Confidence::Medium => "medium",
        Confidence::Low => "low",
        Confidence::Unknown => "unknown",
    }
}

/// Names a validation outcome.
pub fn validation_label(validation: Validation) -> (r: &'static str)
    ensures
        r@ == validation_text(validation),
{
    match validation {
        Validation::Valid => "valid",
        Validation::PartiallyValid => "partial",
        Validation::Invalid => "invalid",
        Validation::Indeterminate => "indeterminate",
        Validation::NotAttempted => "unchecked",
    }
}

/// Names a completeness.
pub fn completeness_label(completeness: Completeness) -> (r: &'static str)
    ensures
        r@ == completeness_text(completeness),
{
    match completeness {
        Completeness::Complete => "complete",
        Completeness::Partial => "partial",
        Completeness::MetadataOnly => "metadata only",
    }
}

/// Names an origin.
pub fn origin_label(origin: Origin) -> (r: &'static str)
    ensures
        r@ == origin_text(origin),
{
    match origin {
        Origin::ActiveFilesystem => "file record",
        Origin::DeletedFilesystem => "deleted record",
        Origin::Carved => "carved",
    }
}

/// The view of a candidate: its identity, the words for its classification
/// and its evidence, in order.
pub fn view(candidate: &FileCandidate) -> (v: CandidateView)
    ensures
        v.id@ == candidate.id.0@,
        v.name@ == candidate.name@,
        v.path@ == path_text(candidate.path@, candidate.path@.len() as int) + candidate.name@,
        v.origin@ == origin_text(candidate.origin),
        v.size == candidate.declared_size,
        v.recovered_size == if sum_lengths(candidate.extents@) <= u64::MAX {
            sum_lengths(candidate.extents@)
        } else {
            0
        },
        v.confidence@ == confidence_text(candidate.spec_confidence()),
        v.validation@ == validation_text(candidate.validation),
        v.completeness@ == completeness_text(candidate.completeness),
        v.evidence@.len() == candidate.evidence@.len(),
        forall|i: int|
            0 <= i < v.evidence@.len() ==> (#[trigger] v.evidence@[i]).detail@ == candidate.evidence@[i].detail@
                && v.evidence@[i].supporting == candidate.evidence@[i].supporting,
{
    let mut evidence: Vec<EvidenceView> = Vec::new();
    let mut i: usize = 0;
    while i < candidate.evidence.len()
        invariant
            i <= candidate.evidence@.len(),
            evidence@.len() == i,
            forall|k: int|
                0 <= k < i ==> (#[trigger] evidence@[k]).detail@ == candidate.evidence@[k].detail@
                    && evidence@[k].supporting == candidate.evidence@[k].supporting,
        decreases candidate.evidence@.len() - i,
    {
        let item = &candidate.evidence[i];
        evidence.push(EvidenceView { detail: string_of(item.detail.as_str()), supporting: item.supporting });
        i = i + 1;
    }
    let recovered_size = match candidate.recovered_size() {
        Ok(n) => n,
        Err(_) => 0,
    };
    CandidateView {
        id: string_of(candidate.id.0.as_str()),
        name: string_of(candidate.name.as_str()),
        path: candidate.display_path(),
        origin: string_of(origin_label(candidate.origin)),
        size: candidate.declared_size,
        recovered_size,
        confidence: string_of(confidence_label(candidate.confidence())),
        validation: string_of(validation_label(candidate.validation)),
        completeness: string_of(completeness_label(candidate.completeness)),
        evidence,
    }
}

/// The ranges of a list of partitions.
pub open spec fn ranges_of(partitions: Seq<PartitionCandidate>) -> Seq<ByteRange> {
    partitions.map_values(|p: PartitionCandidate| p.range)
}

/// The diagnostic a scan records when it reads the whole source as one
/// volume.
pub open spec fn no_table_text() -> Seq<char> {
    "No partition table found; treating the source as a single volume."@
}

/// Copies the ranges out of a list of partitions.
fn partition_ranges(partitions: &Vec<PartitionCandidate>) -> (r: Vec<ByteRange>)
    ensures
        r@ == ranges_of(partitions@),
{
    let mut out: Vec<ByteRange> = Vec::new();
    let mut i: usize = 0;
    while i < partitions.len()
        invariant
            i <= partitions@.len(),
            out@ == ranges_of(partitions@.take(i as int)),
        decreases partitions@.len() - i,
    {
        assert(partitions@.take(i + 1) == partitions@.take(i as int).push(partitions@[i as int]));
        out.push(partitions[i].range);
        i = i + 1;
    }
    assert(partitions@.take(partitions@.len() as int) == partitions@);
    out
}

/// The partitions of the GUID partition table of `contents`, read with
/// 512-byte sectors from the header a reader uses.
pub open spec fn gpt_table_partitions(contents: Seq<u8>) -> Seq<PartitionCandidate> {
    let ss = DEFAULT_SECTOR_SIZE as int;
    let lba = gpt_lba(contents, ss);
    let h = gpt_header_of(contents.subrange(lba * ss, lba * ss + ss));
    let n = h.partition_entry_count as int;
    let start = h.partition_entries_lba * ss;
    gpt_partitions(contents.subrange(start, start + n * h.partition_entry_size), h, n, ss, contents.len() as int)
}

/// Whether `contents` holds a readable GUID partition table with at least
/// one partition.
pub open spec fn has_gpt(contents: Seq<u8>) -> bool {
    let ss = DEFAULT_SECTOR_SIZE as int;
    &&& (contents.len() as int) % ss == 0
    &&& (contents.len() as int) / ss >= 2
    &&& gpt_usable(contents, ss, gpt_lba(contents, ss))
    &&& gpt_table_partitions(contents).len() > 0
}

/// Whether `contents` holds an MBR with a signature and at least one
/// partition.
pub open spec fn has_mbr(contents: Seq<u8>) -> bool {
    let sector = contents.subrange(0, MBR_SIZE as int);
    &&& contents.len() >= MBR_SIZE
    &&& sector[510] == 0x55 && sector[511] == 0xAA
    &&& mbr_partitions(sector, 4, DEFAULT_SECTOR_SIZE as int, contents.len() as int).len() > 0
}

/// The volumes of `contents`: its GPT's partitions when it has a table
/// with partitions, else its MBR's, else the whole source as one volume.
pub open spec fn volume_ranges(contents: Seq<u8>) -> Seq<ByteRange> {
    if has_gpt(contents) {
        ranges_of(gpt_table_partitions(contents))
    } else if has_mbr(contents) {
        ranges_of(mbr_partitions(contents.subrange(0, MBR_SIZE as int), 4, DEFAULT_SECTOR_SIZE as int, contents.len() as int))
    } else {
        seq![ByteRange { offset: 0, length: contents.len() as u64 }]
    }
}

/// The volumes of a source: a GPT's partitions when it has a table with
/// partitions, else an MBR's, else the whole source as one volume, which is
/// noted in `diagnostics`. A source too small or misaligned for a GPT gets
/// the partitions of its MBR, or the whole source where the MBR has none or
/// could not be read.
pub fn discover_partitions<D: BlockDevice>(device: &D, diagnostics: &mut Vec<String>) -> (r: Vec<ByteRange>)
    ensures
        ({
            let cap = device.contents().len() as int;
            let sector = span(device, 0, MBR_SIZE as int);
            let mbr = mbr_partitions(sector, 4, DEFAULT_SECTOR_SIZE as int, cap);
            let whole = ByteRange { offset: 0, length: cap as u64 };
            let mbr_usable = cap >= MBR_SIZE && sector[510] == 0x55 && sector[511] == 0xAA && mbr.len() > 0;
            &&& (r@ == seq![whole] && final(diagnostics)@.len() == old(diagnostics)@.len() + 1
                && final(diagnostics)@.last()@ == no_table_text()
                && final(diagnostics)@.drop_last() == old(diagnostics)@) || (final(diagnostics)@
                == old(diagnostics)@ && r@.len() > 0)
            &&& (cap % 512 != 0 || cap < 1024) ==> {
                &&& (mbr_usable && r@ == ranges_of(mbr) && final(diagnostics)@ == old(diagnostics)@)
                    || r@ == seq![whole]
                &&& !mbr_usable ==> r@ == seq![whole]
            }
        }),
        readable(device) ==> r@ == volume_ranges(device.contents()),
        readable(device) ==> (final(diagnostics)@ == old(diagnostics)@ <==> has_gpt(device.contents()) || has_mbr(
            device.contents(),
        )),
{
    let geometry = match DiskGeometry::new(DEFAULT_SECTOR_SIZE) {
        Ok(g) => g,
        Err(_) => return Vec::new(),
    };
    proof {
        let ss = DEFAULT_SECTOR_SIZE as int;
        if has_gpt(device.contents()) && !gpt_header_at(device.contents(), ss, 1) {
            assert(gpt_lba(device.contents(), ss) == device.contents().len() as int / ss - 1);
        }
    }
    match discover_gpt(device, geometry) {
        Ok(result) => {
            if result.partitions.len() > 0 {
                return partition_ranges(&result.partitions);
            }
        },
        Err(_) => {},
    }
    match discover_mbr(device, geometry) {
        Ok(result) => {
            if result.partitions.len() > 0 {
                return partition_ranges(&result.partitions);
            }
        },
        Err(_) => {},
    }
    diagnostics.push(string_of("No partition table found; treating the source as a single volume."));
    let mut out: Vec<ByteRange> = Vec::new();
    out.push(ByteRange { offset: 0, length: device.capacity() });
    proof {
        assert(out@ == seq![ByteRange { offset: 0, length: device.contents().len() as u64 }]);
    }
    out
}

/// How complete a stream's extents make a candidate.
pub open spec fn completeness_of_state(state: ExtentState) -> Completeness {
    match state {
        ExtentState::Recoverable => Completeness::Complete,
        ExtentState::PartiallyRecoverable => Completeness::Partial,
        ExtentState::MetadataOnly => Completeness::MetadataOnly,
    }
}

/// How complete a stream's extents make a candidate.
pub fn completeness_of(state: ExtentState) -> (c: Completeness)
    ensures
        c == completeness_of_state(state),
{
    match state {
        ExtentState::Recoverable => Completeness::Complete,
        ExtentState::PartiallyRecoverable => Completeness::Partial,
        ExtentState::MetadataOnly => Completeness::MetadataOnly,
    }
}

/// `prefix` followed by `index` in decimal.
pub open spec fn numbered(prefix: Seq<char>, index: nat) -> Seq<char> {
    prefix + zero_padded(decimal(index), 0)
}

/// Builds the identifier `prefix` followed by `index` in decimal.
fn numbered_id(prefix: &str, index: usize) -> (r: CandidateId)
    ensures
        r.0@ == numbered(prefix@, index as nat),
{
    let mut s = string_of(prefix);
    push_decimal(&mut s, index as u64, 0);
    CandidateId(s)
}

/// The candidate for a live exFAT file whose stream was located.
pub fn active_exfat_candidate(entry: &DirectoryEntry, extents: StreamExtents, index: usize) -> (c: FileCandidate)
    ensures
        c.id.0@ == numbered("exfat-"@, index as nat),
        c.name@ == entry.name@,
        c.path@.len() == 0,
        c.origin == Origin::ActiveFilesystem,
        c.extents@ == extents.extents@,
        c.declared_size == extents.declared_size,
        c.completeness == completeness_of_state(extents.state),
        c.validation == Validation::NotAttempted,
        c.evidence@.len() == 0,
{
    FileCandidate {
        id: numbered_id("exfat-", index),
        name: string_of(entry.name.as_str()),
        path: Vec::new(),
        origin: Origin::ActiveFilesystem,
        extents: extents.extents,
        declared_size: extents.declared_size,
        completeness: completeness_of(extents.state),
        validation: Validation::NotAttempted,
        evidence: Vec::new(),
    }
}

/// The candidate for a deleted exFAT file: its reasons become supporting
/// evidence.
pub fn deleted_exfat_candidate(candidate: DeletedCandidate, index: usize) -> (c: FileCandidate)
    ensures
        c.id.0@ == numbered("exfat-del-"@, index as nat),
        c.name@ == candidate.name@,
        c.path@.len() == 0,
        c.origin == Origin::DeletedFilesystem,
        c.extents@ == candidate.extents@,
        c.declared_size == candidate.declared_size,
        c.completeness == completeness_of_state(candidate.state),
        c.validation == Validation::NotAttempted,
        c.evidence@.len() == candidate.evidence@.len(),
        forall|i: int|
            0 <= i < c.evidence@.len() ==> (#[trigger] c.evidence@[i]).supporting && c.evidence@[i].detail@
                == candidate.evidence@[i]@,
{
    let mut evidence: Vec<Evidence> = Vec::new();
    let mut i: usize = 0;
    while i < candidate.evidence.len()
        invariant
            i <= candidate.evidence@.len(),
            evidence@.len() == i,
            forall|k: int|
                0 <= k < i ==> (#[trigger] evidence@[k]).supporting && evidence@[k].detail@
                    == candidate.evidence@[k]@,
        decreases candidate.evidence@.len() - i,
    {
        evidence.push(Evidence::supporting(candidate.evidence[i].as_str()));
        i = i + 1;
    }
    FileCandidate {
        id: numbered_id("exfat-del-", index),
        name: candidate.name,
        path: Vec::new(),
        origin: Origin::DeletedFilesystem,
        extents: candidate.extents,
        declared_size: candidate.declared_size,
        completeness: completeness_of(candidate.state),
        validation: Validation::NotAttempted,
        evidence,
    }
}

/// Whether `c` is the candidate a scan numbers `index` among an exFAT
/// volume's files.
pub open spec fn exfat_scanned(c: FileCandidate, index: nat) -> bool {
    &&& c.validation == Validation::NotAttempted
    &&& c.path@.len() == 0
    &&& (c.origin == Origin::ActiveFilesystem && c.id.0@ == numbered("exfat-"@, index) && c.evidence@.len() == 0)
        || (c.origin == Origin::DeletedFilesystem && c.id.0@ == numbered("exfat-del-"@, index) && forall|i: int|
        0 <= i < c.evidence@.len() ==> (#[trigger] c.evidence@[i]).supporting)
}

/// The diagnostic recording how many entry sets were rejected.
pub open spec fn rejected_text(count: nat) -> Seq<char> {
    numbered(Seq::empty(), count) + " exFAT entry set(s) failed validation and were not trusted."@
}

/// Whether `entries` are the entries, deleted ones included, of the root
/// directory of `v`, read through a chain of at most the directory limit.
pub open spec fn root_listing(v: ExfatVolume, contents: Seq<u8>, range: ByteRange, entries: Seq<DirectoryEntry>) -> bool {
    exists|chain: Seq<u32>|
        #![trigger v.is_chain(contents, range.offset as int, chain)]
        {
            let data = chain_data(v, contents, range.offset as int, chain);
            &&& chain[0] == v.root_directory_cluster
            &&& v.is_chain(contents, range.offset as int, chain)
            &&& chain.len() <= MAX_DIRECTORY_CLUSTERS
            &&& entries_of_sets(entries, data, reported_sets(data, set_positions(data, 0), true))
        }
}

/// Whether a scan owes a candidate for `e`: a file on a volume whose range
/// and cluster size fit and whose heap lies inside the range, with its
/// clusters numbered within a `u32`.
pub open spec fn candidate_owed(v: ExfatVolume, range: ByteRange, e: DirectoryEntry) -> bool {
    let cs = v.bytes_per_sector * v.sectors_per_cluster;
    &&& e.attributes & ATTR_DIRECTORY == 0
    &&& range.spec_end() <= u64::MAX
    &&& cs <= u64::MAX
    &&& v.heap_in_range(range)
    &&& e.first_cluster + clusters_needed(e.data_length as int, cs) <= u32::MAX + 1
}

/// How many of `entries` a scan owes a candidate.
pub open spec fn owed_count(v: ExfatVolume, range: ByteRange, entries: Seq<DirectoryEntry>) -> nat
    decreases entries.len(),
{
    if entries.len() == 0 {
        0
    } else {
        owed_count(v, range, entries.drop_last()) + if candidate_owed(v, range, entries.last()) {
            1nat
        } else {
            0nat
        }
    }
}

/// How many of `entries` are files rather than directories.
pub open spec fn file_count(entries: Seq<DirectoryEntry>) -> nat
    decreases entries.len(),
{
    if entries.len() == 0 {
        0
    } else {
        file_count(entries.drop_last()) + if entries.last().attributes & ATTR_DIRECTORY == 0 {
            1nat
        } else {
            0nat
        }
    }
}

/// Whether `entries` are the entries, deleted ones included, of the root
/// directory of `v` and `rejected` the entry sets it refused, read through
/// one chain of at most the directory limit.
pub open spec fn root_listing_rejected(
    v: ExfatVolume,
    contents: Seq<u8>,
    range: ByteRange,
    entries: Seq<DirectoryEntry>,
    rejected: Seq<EntrySetError>,
) -> bool {
    exists|chain: Seq<u32>|
        #![trigger v.is_chain(contents, range.offset as int, chain)]
        {
            let data = chain_data(v, contents, range.offset as int, chain);
            let ps = set_positions(data, 0);
            &&& chain[0] == v.root_directory_cluster
            &&& v.is_chain(contents, range.offset as int, chain)
            &&& chain.len() <= MAX_DIRECTORY_CLUSTERS
            &&& rejected == rejections(data, ps)
            &&& entries_of_sets(entries, data, reported_sets(data, ps, true))
        }
}

/// Whether `c` is the candidate a scan makes of file entry `e` of volume
/// `v` in `range` of `contents`: same name and size, the origin its
/// deleted flag gives, no extents when no content can be located, and
/// otherwise the extents of the clusters it names, consecutive from its
/// first cluster for a contiguous or deleted file, along the FAT for a
/// fragmented one.
pub open spec fn exfat_candidate_of(c: FileCandidate, e: DirectoryEntry, v: ExfatVolume, range: ByteRange, contents: Seq<u8>) -> bool {
    let cs = v.bytes_per_sector * v.sectors_per_cluster;
    let needed = clusters_needed(e.data_length as int, cs);
    &&& e.attributes & ATTR_DIRECTORY == 0
    &&& c.name@ == e.name@
    &&& c.declared_size == e.data_length
    &&& c.origin == if e.deleted {
        Origin::DeletedFilesystem
    } else {
        Origin::ActiveFilesystem
    }
    &&& (e.data_length == 0 || !(FIRST_CLUSTER <= e.first_cluster < v.spec_cluster_limit())) ==> c.extents@.len() == 0
    &&& (e.data_length > 0 && FIRST_CLUSTER <= e.first_cluster < v.spec_cluster_limit()) ==> exists|clusters: Seq<u32>, rec: int|
        #[trigger] extents_of_clusters(v, range, clusters, e.data_length as int, c.extents@, rec) && (e.deleted ==> clusters
            == Seq::new(run_stop(v, None, e.first_cluster, needed, 0) as nat, |i: int| (e.first_cluster + i) as u32))
            && (!e.deleted && e.no_fat_chain ==> contiguous_clusters(v, e.first_cluster, needed, clusters)) && (!e.deleted
            && !e.no_fat_chain ==> chain_prefix(v, contents, range.offset as int, e.first_cluster, clusters))
}

/// Whether `out` is what a scan makes of `entries`: one candidate per file
/// entry at the increasing positions `picks`, each made of its entry, with
/// every entry owed a candidate among them.
pub open spec fn scanned_entries(
    out: Seq<FileCandidate>,
    entries: Seq<DirectoryEntry>,
    picks: Seq<int>,
    v: ExfatVolume,
    range: ByteRange,
    contents: Seq<u8>,
) -> bool {
    &&& picks.len() == out.len()
    &&& forall|k: int| 0 <= k < picks.len() ==> 0 <= #[trigger] picks[k] < entries.len()
    &&& forall|a: int, b: int| 0 <= a < b < picks.len() ==> #[trigger] picks[a] < #[trigger] picks[b]
    &&& forall|k: int| 0 <= k < out.len() ==> exfat_candidate_of(#[trigger] out[k], entries[picks[k]], v, range, contents)
    &&& forall|j: int| 0 <= j < entries.len() && #[trigger] candidate_owed(v, range, entries[j]) ==> picks.contains(j)
}

/// Whether a scan of the exFAT volume in `range` can list its root
/// directory: the source reads fully, the boot sector is valid, the heap
/// lies inside the range and the root chain can be walked within the
/// directory limit.
pub open spec fn exfat_listable<D: BlockDevice>(device: &D, range: ByteRange) -> bool {
    let v = exfat_volume_of(span(device, range.offset as int, 512));
    &&& readable(device)
    &&& range.within(device.contents().len() as int)
    &&& range.length >= 512
    &&& exfat_boot_valid(span(device, range.offset as int, 512), range.length as int)
    &&& v.heap_in_range(range)
    &&& exists|w: Seq<u32>|
        #[trigger] v.walkable_chain(device.contents(), range, v.root_directory_cluster, w) && w.len()
            <= MAX_DIRECTORY_CLUSTERS
}

/// What a scan of the exFAT volume in `range` hands back: candidates that
/// each follow from an entry of the volume; none where the range holds no
/// valid exFAT boot sector; and, where the root directory can be listed,
/// one candidate for each file entry that is owed one, in order, made from
/// that entry.
pub open spec fn exfat_result<D: BlockDevice>(device: &D, range: ByteRange, out: Seq<FileCandidate>) -> bool {
    &&& forall|i: int| 0 <= i < out.len() ==> exfat_scanned(#[trigger] out[i], i as nat)
    &&& !range.within(device.contents().len() as int) || range.length < 512 || !exfat_boot_valid(
        span(device, range.offset as int, 512),
        range.length as int,
    ) ==> out.len() == 0
    &&& exfat_listable(device, range) ==> exists|entries: Seq<DirectoryEntry>|
        #[trigger] root_listing(
            exfat_volume_of(span(device, range.offset as int, 512)),
            device.contents(),
            range,
            entries,
        ) && owed_count(exfat_volume_of(span(device, range.offset as int, 512)), range, entries) <= out.len()
            <= file_count(entries) && exists|picks: Seq<int>|
            scanned_entries(
                out,
                entries,
                picks,
                exfat_volume_of(span(device, range.offset as int, 512)),
                range,
                device.contents(),
            )
}

/// Lists the files of the exFAT volume in `range`: live files whose streams
/// can be located, and deleted files whose entry sets survive. Directories
/// are skipped; files that cannot be placed are left out.
#[verifier::spinoff_prover]
#[verifier::rlimit(60)]
pub fn scan_exfat<D: BlockDevice>(device: &D, range: ByteRange, diagnostics: &mut Vec<String>) -> (out: Vec<
    FileCandidate,
>)
    ensures
        exfat_result(device, range, out@),
        final(diagnostics)@.len() >= old(diagnostics)@.len(),
        final(diagnostics)@.subrange(0, old(diagnostics)@.len() as int) == old(diagnostics)@,
        !range.within(device.contents().len() as int) || range.length < 512 || !exfat_boot_valid(
            span(device, range.offset as int, 512),
            range.length as int,
        ) ==> out@.len() == 0 && final(diagnostics)@ == old(diagnostics)@,
        exfat_listable(device, range) ==> exists|entries: Seq<DirectoryEntry>, rejected: Seq<EntrySetError>|
            #[trigger] root_listing_rejected(
                exfat_volume_of(span(device, range.offset as int, 512)),
                device.contents(),
                range,
                entries,
                rejected,
            ) && final(diagnostics)@.len() == old(diagnostics)@.len() + (if rejected.len() > 0 {
                1int
            } else {
                0int
            }) && (rejected.len() > 0 ==> final(diagnostics)@.last()@ == rejected_text(rejected.len())),
{
    let volume = match parse_volume(device, range) {
        Ok(v) => v,
        Err(_) => return Vec::new(),
    };
    proof {
        lemma_valid_cluster_size(span(device, range.offset as int, 512), range.length as int);
    }
    let mut rejected: Vec<EntrySetError> = Vec::new();
    let entries = match read_directory(device, &volume, range, volume.root_directory_cluster, true, &mut rejected) {
        Ok(e) => e,
        Err(_) => {
            diagnostics.push(string_of("exFAT root directory could not be read."));
            proof {
                assert(diagnostics@.subrange(0, old(diagnostics)@.len() as int) == old(diagnostics)@);
            }
            return Vec::new();
        },
    };
    proof {
        assert(root_listing_rejected(volume, device.contents(), range, entries@, rejected@));
    }
    let ghost before_notes = diagnostics@;
    if rejected.len() > 0 {
        let mut message = String::new();
        push_decimal(&mut message, rejected.len() as u64, 0);
        push_str(&mut message, " exFAT entry set(s) failed validation and were not trusted.");
        assert(message@ == rejected_text(rejected@.len()));
        diagnostics.push(message);
    }
    let ghost noted = diagnostics@;
    proof {
        assert(noted.subrange(0, old(diagnostics)@.len() as int) == old(diagnostics)@);
        assert(root_listing(volume, device.contents(), range, entries@));
    }
    let mut out: Vec<FileCandidate> = Vec::new();
    let ghost mut picks: Seq<int> = Seq::empty();
    let mut i: usize = 0;
    while i < entries.len()
        invariant
            scanned_entries(out@, entries@.take(i as int), picks, volume, range, device.contents()),
            forall|k: int| 0 <= k < picks.len() ==> #[trigger] picks[k] < i,
            i <= entries@.len(),
            volume.bytes_per_sector * volume.sectors_per_cluster > 0,
            forall|k: int| 0 <= k < out@.len() ==> exfat_scanned(#[trigger] out@[k], k as nat),
            out@.len() <= i,
            diagnostics@ == noted,
            owed_count(volume, range, entries@.take(i as int)) <= out@.len() <= file_count(entries@.take(i as int)),
        decreases entries@.len() - i,
    {
        let entry = &entries[i];
        assert(entries@.take(i + 1).drop_last() == entries@.take(i as int));
        assert(entries@.take(i + 1).last() == *entry);
        let ghost old_out = out@;
        let ghost old_picks = picks;
        let mut made = false;
        if !entry.is_directory() {
            if entry.deleted {
                match deleted_candidate(&volume, range, None, entry) {
                    Ok(candidate) => {
                        let c = deleted_exfat_candidate(candidate, out.len());
                        assert(exfat_candidate_of(c, *entry, volume, range, device.contents()));
                        out.push(c);
                        made = true;
                    },
                    Err(_) => {},
                }
            } else {
                match stream_extents(device, &volume, range, entry) {
                    Ok(extents) => {
                        let c = active_exfat_candidate(entry, extents, out.len());
                        assert(exfat_candidate_of(c, *entry, volume, range, device.contents()));
                        out.push(c);
                        made = true;
                    },
                    Err(_) => {},
                }
            }
        }
        proof {
            let t = entries@.take(i + 1);
            if made {
                picks = old_picks.push(i as int);
                assert(out@ == old_out.push(out@.last()));
            }
            assert forall|k: int| 0 <= k < out@.len() implies exfat_candidate_of(#[trigger] out@[k], t[picks[k]], volume, range, device.contents()) by {
                if k < old_out.len() {
                    assert(out@[k] == old_out[k]);
                    assert(picks[k] == old_picks[k]);
                    assert(t[picks[k]] == entries@.take(i as int)[old_picks[k]]);
                }
            }
            assert forall|j: int| 0 <= j < t.len() && #[trigger] candidate_owed(volume, range, t[j]) implies picks.contains(j) by {
                if j < i {
                    assert(t[j] == entries@.take(i as int)[j]);
                    assert(old_picks.contains(j));
                    let w = choose|w: int| 0 <= w < old_picks.len() && old_picks[w] == j;
                    assert(picks[w] == j);
                } else {
                    assert(made);
                    assert(picks[picks.len() - 1] == j);
                }
            }
        }
        i = i + 1;
    }
    assert(entries@.take(entries@.len() as int) == entries@);
    out
}

/// The name shown for a filesystem kind.
pub open spec fn filesystem_text(kind: FilesystemKind) -> Seq<char> {
    match kind {
        FilesystemKind::Fat32 => "FAT32"@,
        FilesystemKind::ExFat => "exFAT"@,
        FilesystemKind::Unknown => "unrecognised"@,
    }
}

/// Names a filesystem kind.
pub fn filesystem_label(kind: FilesystemKind) -> (r: &'static str)
    ensures
        r@ == filesystem_text(kind),
{
    match kind {
        FilesystemKind::Fat32 => "FAT32",
        FilesystemKind::ExFat => "exFAT",
        FilesystemKind::Unknown => "unrecognised",
    }
}

/// The view of the partition numbered `index` at `range`, with what the
/// probe found there.
pub fn partition_view(index: usize, range: ByteRange, kind: FilesystemKind, notes: &Vec<&'static str>) -> (v: PartitionView)
    ensures
        v.index == index,
        v.offset == range.offset,
        v.length == range.length,
        v.filesystem@ == filesystem_text(kind),
        v.evidence@.len() == notes@.len(),
        forall|i: int| 0 <= i < notes@.len() ==> (#[trigger] v.evidence@[i])@ == notes@[i]@,
{
    let mut evidence: Vec<String> = Vec::new();
    let mut i: usize = 0;
    while i < notes.len()
        invariant
            i <= notes@.len(),
            evidence@.len() == i,
            forall|k: int| 0 <= k < i ==> (#[trigger] evidence@[k])@ == notes@[k]@,
        decreases notes@.len() - i,
    {
        evidence.push(string_of(notes[i]));
        i = i + 1;
    }
    PartitionView {
        index,
        offset: range.offset,
        length: range.length,
        filesystem: string_of(filesystem_label(kind)),
        evidence,
    }
}

/// The filesystem a probe of `range` finds: none where the range does not
/// lie in the source or is shorter than a boot sector.
pub open spec fn probed_kind(contents: Seq<u8>, range: ByteRange) -> FilesystemKind {
    let boot = contents.subrange(range.offset as int, range.offset + BOOT_SECTOR_LEN);
    if !range.within(contents.len() as int) || range.length < BOOT_SECTOR_LEN {
        FilesystemKind::Unknown
    } else if exfat_probe_ok(boot) {
        FilesystemKind::ExFat
    } else if fat32_probe_ok(boot) {
        FilesystemKind::Fat32
    } else {
        FilesystemKind::Unknown
    }
}

/// Whether `v` presents candidate `c`.
pub open spec fn viewed(v: CandidateView, c: FileCandidate) -> bool {
    &&& v.id@ == c.id.0@
    &&& v.name@ == c.name@
    &&& v.path@ == path_text(c.path@, c.path@.len() as int) + c.name@
    &&& v.origin@ == origin_text(c.origin)
    &&& v.size == c.declared_size
    &&& v.recovered_size == if sum_lengths(c.extents@) <= u64::MAX {
        sum_lengths(c.extents@)
    } else {
        0
    }
    &&& v.confidence@ == confidence_text(c.spec_confidence())
    &&& v.validation@ == validation_text(c.validation)
    &&& v.completeness@ == completeness_text(c.completeness)
}

/// The candidates of the first `n` parts, part after part.
pub open spec fn concat_parts(parts: Seq<Seq<FileCandidate>>, n: int) -> Seq<FileCandidate>
    decreases n,
{
    if n <= 0 {
        Seq::empty()
    } else {
        concat_parts(parts, n - 1) + parts[n - 1]
    }
}

/// Whether `sigs` is the signature registry: JPEG, PNG, PDF, ZIP and GIF.
pub open spec fn is_registry(sigs: Seq<Signature>) -> bool {
    sigs.len() == 5 && is_jpeg(sigs[0]) && is_png(sigs[1]) && is_pdf(sigs[2]) && is_zip(sigs[3]) && is_gif(sigs[4])
}

/// Whether `found` is what a scan of a source finds, split as `parts` for
/// its volumes in order and `carved` for carving with signatures `sigs`:
/// each exFAT volume's part what a scan of it returns, every other volume's
/// part empty, and, when carving is asked for and succeeds, `carved` what a
/// carve of the whole source with the registry and the default limits
/// returns (empty otherwise).
pub open spec fn scan_split<D: BlockDevice>(
    device: &D,
    include_carving: bool,
    parts: Seq<Seq<FileCandidate>>,
    carved: Seq<FileCandidate>,
    sigs: Seq<Signature>,
    found: Seq<FileCandidate>,
) -> bool {
    let contents = device.contents();
    let ranges = volume_ranges(contents);
    &&& parts.len() == ranges.len()
    &&& forall|i: int|
        0 <= i < ranges.len() ==> (if probed_kind(contents, ranges[i]) == FilesystemKind::ExFat {
            exfat_result(device, ranges[i], #[trigger] parts[i])
        } else {
            parts[i].len() == 0
        })
    &&& is_registry(sigs)
    &&& !include_carving ==> carved.len() == 0
    &&& include_carving && carved.len() > 0 ==> carve_result(
        device,
        ByteRange { offset: 0, length: contents.len() as u64 },
        sigs,
        CarveLimits { chunk_size: 4_194_304usize, max_candidates: 100_000usize, max_per_chunk: 10_000usize },
        carved,
    )
    &&& found == concat_parts(parts, ranges.len() as int) + carved
}

/// Whether `found` is what a scan of a source finds: for each of its volumes
/// in order, the candidates of an exFAT volume's scan (none for a volume of
/// another kind), then, when carving is asked for and succeeds, what a carve
/// of the whole source with the registry and the default limits returns.
pub open spec fn scan_found<D: BlockDevice>(device: &D, include_carving: bool, found: Seq<FileCandidate>) -> bool {
    exists|parts: Seq<Seq<FileCandidate>>, carved: Seq<FileCandidate>, sigs: Seq<Signature>|
        #[trigger] scan_split(device, include_carving, parts, carved, sigs, found)
}

/// Scans a source: its volumes, what each holds, and, when asked, the
/// files carving finds across the whole source.
///
/// exFAT volumes have their files listed. FAT32 volumes are identified and
/// shown with their evidence, but their files are not listed here, and the
/// candidates are not scored or deduplicated: the steps that do so are not
/// part of this library.
pub fn scan_device<D: BlockDevice>(
    device: &D,
    source: &str,
    include_carving: bool,
    cancel: &CancellationToken,
) -> (r: ScanResult)
    ensures
        r.source@ == source@,
        r.capacity == device.contents().len(),
        forall|i: int| 0 <= i < r.partitions@.len() ==> (#[trigger] r.partitions@[i]).index == i,
        readable(device) ==> {
            let ranges = volume_ranges(device.contents());
            &&& r.partitions@.len() == ranges.len()
            &&& forall|i: int|
                0 <= i < ranges.len() ==> (#[trigger] r.partitions@[i]).offset == ranges[i].offset
                    && r.partitions@[i].length == ranges[i].length && r.partitions@[i].filesystem@ == filesystem_text(
                    probed_kind(device.contents(), ranges[i]),
                )
        },
        readable(device) ==> exists|found: Seq<FileCandidate>|
            #[trigger] scan_found(device, include_carving, found) && r.candidates@.len() == found.len() && forall|k: int|
                0 <= k < found.len() ==> viewed(#[trigger] r.candidates@[k], found[k]),
{
    let mut diagnostics: Vec<String> = Vec::new();
    let ranges = discover_partitions(device, &mut diagnostics);
    let ghost contents = device.contents();
    let ghost owed = readable(device);
    let mut partitions: Vec<PartitionView> = Vec::new();
    let mut candidates: Vec<FileCandidate> = Vec::new();
    let ghost mut parts: Seq<Seq<FileCandidate>> = Seq::empty();
    let mut index: usize = 0;
    while index < ranges.len()
        invariant
            index <= ranges@.len(),
            partitions@.len() == index,
            forall|i: int| 0 <= i < partitions@.len() ==> (#[trigger] partitions@[i]).index == i,
            contents == device.contents(),
            owed == readable(device),
            owed ==> ranges@ == volume_ranges(contents),
            forall|i: int|
                0 <= i < index ==> (#[trigger] partitions@[i]).offset == ranges@[i].offset && partitions@[i].length
                    == ranges@[i].length,
            owed ==> forall|i: int|
                0 <= i < index ==> (#[trigger] partitions@[i]).filesystem@ == filesystem_text(
                    probed_kind(contents, ranges@[i]),
                ),
            parts.len() == index,
            forall|i: int|
                0 <= i < index ==> (if probed_kind(contents, ranges@[i]) == FilesystemKind::ExFat {
                    owed ==> exfat_result(device, ranges@[i], #[trigger] parts[i])
                } else {
                    owed ==> parts[i].len() == 0
                }),
            candidates@ == concat_parts(parts, index as int),
        decreases ranges@.len() - index,
    {
        let range = ranges[index];
        let (kind, view) = match probe(device, range) {
            Ok(evidence) => (evidence.kind, partition_view(index, range, evidence.kind, &evidence.notes)),
            Err(_) => (FilesystemKind::Unknown, partition_view(index, range, FilesystemKind::Unknown, &Vec::new())),
        };
        proof {
            if owed {
                assert(span(device, range.offset as int, BOOT_SECTOR_LEN as int) == contents.subrange(
                    range.offset as int,
                    range.offset + BOOT_SECTOR_LEN,
                ));
                assert(kind == probed_kind(contents, range));
            }
        }
        let ghost before = partitions@;
        partitions.push(view);
        let ghost cands0 = candidates@;
        let ghost mut part: Seq<FileCandidate> = Seq::empty();
        match kind {
            FilesystemKind::ExFat => {
                let mut found = scan_exfat(device, range, &mut diagnostics);
                let ghost all_found = found@;
                proof {
                    part = all_found;
                }
                while found.len() > 0
                    invariant
                        all_found.len() >= found@.len(),
                        found@ == all_found.skip(all_found.len() - found@.len()),
                        candidates@ == cands0 + all_found.take(all_found.len() - found@.len()),
                    decreases found@.len(),
                {
                    let ghost rest = found@;
                    let c = found.remove(0);
                    let ghost m = all_found.len() - rest.len();
                    candidates.push(c);
                    proof {
                        assert(all_found[m] == c);
                        assert(all_found.take(m + 1) == all_found.take(m).push(c));
                        assert(found@ =~= all_found.skip(all_found.len() - found@.len()));
                    }
                }
                assert(all_found.take(all_found.len() as int) == all_found);
            },
            FilesystemKind::Fat32 => {},
            FilesystemKind::Unknown => {
                let mut message = string_of("Partition ");
                push_decimal(&mut message, index as u64, 0);
                push_str(&mut message, " holds no filesystem this build can read; carving may still find files.");
                diagnostics.push(message);
            },
        }
        proof {
            let p2 = parts.push(part);
            assert(concat_parts(p2, index + 1) =~= concat_parts(p2, index as int) + part);
            lemma_concat_parts_prefix(parts, p2, index as int);
            assert forall|i: int| 0 <= i < index + 1 implies (if probed_kind(contents, ranges@[i]) == FilesystemKind::ExFat {
                owed ==> exfat_result(device, ranges@[i], #[trigger] p2[i])
            } else {
                owed ==> p2[i].len() == 0
            }) by {
                if i < index {
                    assert(p2[i] == parts[i]);
                }
            }
            assert forall|i: int| 0 <= i < partitions@.len() implies (#[trigger] partitions@[i]).index == i by {
                if i < index {
                    assert(partitions@[i] == before[i]);
                }
            }
            parts = p2;
        }
        index = index + 1;
    }
    let capacity = device.capacity();
    let ghost scanned = candidates@;
    let ghost mut carved: Seq<FileCandidate> = Seq::empty();
    let signatures = registry();
    if include_carving {
        let limits = CarveLimits::default();
        match carve(device, ByteRange { offset: 0, length: capacity }, signatures.as_slice(), &limits, cancel) {
            Ok(mut out) => {
                let ghost all_out = out@;
                proof {
                    carved = all_out;
                }
                while out.len() > 0
                    invariant
                        all_out.len() >= out@.len(),
                        out@ == all_out.skip(all_out.len() - out@.len()),
                        candidates@ == scanned + all_out.take(all_out.len() - out@.len()),
                    decreases out@.len(),
                {
                    let ghost rest = out@;
                    let c = out.remove(0);
                    let ghost m = all_out.len() - rest.len();
                    candidates.push(c);
                    proof {
                        assert(all_out[m] == c);
                        assert(all_out.take(m + 1) == all_out.take(m).push(c));
                        assert(out@ =~= all_out.skip(all_out.len() - out@.len()));
                    }
                }
                assert(all_out.take(all_out.len() as int) == all_out);
            },
            Err(_) => {},
        }
    }
    let mut views: Vec<CandidateView> = Vec::new();
    let mut k: usize = 0;
    while k < candidates.len()
        invariant
            k <= candidates@.len(),
            views@.len() == k,
            forall|j: int| 0 <= j < k ==> viewed(#[trigger] views@[j], candidates@[j]),
        decreases candidates@.len() - k,
    {
        let v = view(&candidates[k]);
        views.push(v);
        k = k + 1;
    }
    proof {
        if owed {
            assert(is_registry(signatures@));
            assert(scan_split(device, include_carving, parts, carved, signatures@, candidates@));
            assert(scan_found(device, include_carving, candidates@));
        }
    }
    ScanResult { source: string_of(source), capacity, partitions, candidates: views, diagnostics }
}

/// Concatenating parts depends only on the parts it covers.
proof fn lemma_concat_parts_prefix(a: Seq<Seq<FileCandidate>>, b: Seq<Seq<FileCandidate>>, n: int)
    requires
        n <= a.len(),
        n <= b.len(),
        forall|j: int| 0 <= j < n ==> a[j] == b[j],
    ensures
        concat_parts(a, n) == concat_parts(b, n),
    decreases n,
{
    if n > 0 {
        lemma_concat_parts_prefix(a, b, n - 1);
    }
}

} // verus!
