//! Deleted exFAT entry sets, and reading a file's clusters back.

use vstd::prelude::*;
use crate::bytes::{le_u16, le_u32, le_u64, spec_le_u16, spec_le_u32, spec_le_u64};
use crate::device::{read_exact, readable, span, BlockDevice};
use crate::exfat::boot::{ExfatVolume, FIRST_CLUSTER};
use crate::exfat::directory::{cluster_chain, DirectoryEntry, EXFAT_END_OF_CHAIN};
use crate::range::{io_error, ByteRange, RecoveryError, RecoveryResult};
use crate::text::string_from_chars;
use crate::unicode::{decode_utf16, scalars, utf16_scalars};

verus! {

/// The type a deleted file entry carries: a file entry with its in-use bit
/// cleared.
pub const DELETED_FILE: u8 = 0x05;
/// The type of a deleted stream-extension entry.
pub const DELETED_STREAM: u8 = 0x40;
/// The type of a deleted file-name entry.
pub const DELETED_NAME: u8 = 0x41;
/// UTF-16 units a file-name entry holds.
pub const NAME_UNITS_PER_ENTRY: usize = 15;

/// The `u`-th name unit of a set, read from its name entries.
pub open spec fn deleted_name_unit(entries: Seq<[u8; 32]>, u: int) -> u16 {
    let e = entries[2 + u / 15]@;
    spec_le_u16(e, 2 + (u % 15) * 2) as u16
}

/// The first `n` name units of a set.
pub open spec fn deleted_name_units(entries: Seq<[u8; 32]>, n: int) -> Seq<u16> {
    Seq::new(n as nat, |u: int| deleted_name_unit(entries, u))
}

/// Whether a deleted entry set is well formed: a deleted file entry whose
/// secondary count covers exactly the stream entry and the name entries
/// the name length needs, each of the deleted types, a name that decodes
/// and is not empty, and a first cluster for a non-empty file.
pub open spec fn deleted_set_valid(entries: Seq<[u8; 32]>) -> bool {
    let primary = entries[0]@;
    let stream = entries[1]@;
    let secondary = primary[1] as int;
    let name_len = stream[3] as int;
    let names = (name_len + 14) / 15;
    &&& entries.len() >= 2
    &&& primary[0] == DELETED_FILE
    &&& entries.len() == secondary + 1
    &&& stream[0] == DELETED_STREAM
    &&& secondary == 1 + names
    &&& forall|i: int| 2 <= i < entries.len() ==> (#[trigger] entries[i])@[0] == DELETED_NAME
    &&& utf16_scalars(deleted_name_units(entries, name_len)) matches Some(s) && s.len() > 0
    &&& spec_le_u64(stream, 24) > 0 ==> spec_le_u32(stream, 20) >= 2
}

/// Parses an entry set left behind by deletion. exFAT clears the in-use bit
/// of the file, stream and name entries but keeps their metadata; only the
/// cleared forms are accepted, and the result is a deleted entry.
pub fn parse_deleted_directory_entry_set(entries: &[[u8; 32]]) -> (r: RecoveryResult<DirectoryEntry>)
    ensures
        r is Ok <==> deleted_set_valid(entries@),
        r matches Ok(e) ==> deleted_entry_of(e, entries@),
{
    if entries.len() == 0 {
        return Err(io_error("empty deleted exFAT entry set"));
    }
    let primary = &entries[0];
    if primary[0] != DELETED_FILE {
        return Err(io_error("exFAT entry set is not a deleted file entry"));
    }
    let secondary = primary[1] as usize;
    if entries.len() != secondary + 1 {
        return Err(io_error("deleted exFAT secondary entry count mismatch"));
    }
    if entries.len() < 2 || entries[1][0] != DELETED_STREAM {
        return Err(io_error("deleted exFAT file entry set missing stream extension"));
    }
    let stream = &entries[1];
    let name_len = stream[3] as usize;
    let required_names = (name_len + 14) / 15;
    if secondary != 1 + required_names {
        return Err(io_error("deleted exFAT filename secondary count mismatch"));
    }
    let mut units: Vec<u16> = Vec::new();
    let mut i: usize = 0;
    while i < required_names
        invariant
            i <= required_names,
            required_names == (name_len + 14) / 15,
            entries@.len() == 2 + required_names,
            name_len == entries@[1]@[3],
            units@.len() == if i * 15 < name_len { i * 15 } else { name_len as int },
            units@ == deleted_name_units(entries@, units@.len() as int),
            forall|q: int| 2 <= q < 2 + i ==> (#[trigger] entries@[q])@[0] == DELETED_NAME,
        decreases required_names - i,
    {
        let entry = &entries[2 + i];
        if entry[0] != DELETED_NAME {
            return Err(io_error("deleted exFAT filename entry missing or out of order"));
        }
        let mut j: usize = 0;
        while j < NAME_UNITS_PER_ENTRY && units.len() < name_len
            invariant
                j <= NAME_UNITS_PER_ENTRY,
                i < required_names,
                entries@.len() == 2 + required_names,
                entry@ == entries@[2 + i]@,
                units@.len() == if i * 15 + j < name_len { i * 15 + j } else { name_len as int },
                units@.len() < name_len ==> units@.len() == i * 15 + j,
                units@ == deleted_name_units(entries@, units@.len() as int),
            decreases NAME_UNITS_PER_ENTRY - j,
        {
            let p = 2 + j * 2;
            let unit = le_u16(entry, p);
            let ghost before = units@;
            units.push(unit);
            assert(units@ =~= deleted_name_units(entries@, units@.len() as int)) by {
                assert forall|u: int| 0 <= u < units@.len() implies units@[u] == deleted_name_unit(entries@, u) by {
                    if u < before.len() {
                        assert(units@[u] == before[u]);
                    } else {
                        assert(u == i * 15 + j);
                        assert(u / 15 == i as int) by (nonlinear_arith)
                            requires
                                u == i * 15 + j,
                                0 <= j < 15,
                        ;
                        assert(u % 15 == j as int) by (nonlinear_arith)
                            requires
                                u == i * 15 + j,
                                0 <= j < 15,
                        ;
                    }
                }
            }
            j = j + 1;
        }
        i = i + 1;
    }
    assert(units@.len() == name_len) by {
        assert(required_names * 15 >= name_len) by (nonlinear_arith)
            requires
                required_names == (name_len + 14) / 15,
        ;
    }
    let chars = match decode_utf16(units.as_slice()) {
        Some(c) => c,
        None => return Err(io_error("invalid UTF-16 deleted exFAT filename")),
    };
    if chars.len() == 0 {
        return Err(io_error("empty deleted exFAT filename"));
    }
    let name = string_from_chars(&chars);
    let first_cluster = le_u32(stream, 20);
    let data_length = le_u64(stream, 24);
    if data_length > 0 && first_cluster < 2 {
        return Err(io_error("deleted non-empty exFAT file has invalid first cluster"));
    }
    Ok(
        DirectoryEntry {
            name,
            attributes: le_u16(primary, 4),
            first_cluster,
            data_length,
            valid_data_length: le_u64(stream, 8),
            no_fat_chain: stream[1] & 0x02 != 0,
            deleted: true,
        },
    )
}

/// Whether `e` is the entry described by the deleted entry set `entries`:
/// its name from the name entries, its metadata from the file and stream
/// entries.
pub open spec fn deleted_entry_of(e: DirectoryEntry, entries: Seq<[u8; 32]>) -> bool {
    let primary = entries[0]@;
    let stream = entries[1]@;
    &&& e.deleted
    &&& Some(scalars(e.name@)) == utf16_scalars(deleted_name_units(entries, stream[3] as int))
    &&& e.attributes == spec_le_u16(primary, 4)
    &&& e.first_cluster == spec_le_u32(stream, 20)
    &&& e.data_length == spec_le_u64(stream, 24)
    &&& e.valid_data_length == spec_le_u64(stream, 8)
    &&& e.no_fat_chain == (stream[1] & 0x02 != 0)
}

/// Whether `set` holds the `n` 32-byte entries that start at byte `i` of
/// `bytes`.
pub open spec fn entries_at(set: Seq<[u8; 32]>, bytes: Seq<u8>, i: int, n: int) -> bool {
    &&& set.len() == n
    &&& forall|k: int| 0 <= k < n ==> (#[trigger] set[k])@ == bytes.subrange(i + 32 * k, i + 32 * k + 32)
}

/// Whether every deleted entry set from byte `i` of a directory buffer up to
/// its end marker lies inside the buffer and is well formed; other entries
/// are stepped over one at a time.
pub open spec fn deleted_sets_valid(bytes: Seq<u8>, i: int) -> bool
    decreases bytes.len() - i,
{
    if i < 0 || i + 32 > bytes.len() || bytes[i] == 0 {
        true
    } else if bytes[i] == DELETED_FILE {
        let n = bytes[i + 1] as int + 1;
        &&& i + 32 * n <= bytes.len()
        &&& exists|set: Seq<[u8; 32]>| #[trigger] entries_at(set, bytes, i, n) && deleted_set_valid(set)
        &&& deleted_sets_valid(bytes, i + 32 * n)
    } else {
        deleted_sets_valid(bytes, i + 32)
    }
}

/// How many deleted entry sets start at or after byte `i` of a directory
/// buffer, before its end marker.
pub open spec fn deleted_sets_count(bytes: Seq<u8>, i: int) -> nat
    decreases bytes.len() - i,
{
    if i < 0 || i + 32 > bytes.len() || bytes[i] == 0 {
        0
    } else if bytes[i] == DELETED_FILE {
        let n = bytes[i + 1] as int + 1;
        if i + 32 * n <= bytes.len() {
            1 + deleted_sets_count(bytes, i + 32 * n)
        } else {
            0
        }
    } else {
        deleted_sets_count(bytes, i + 32)
    }
}

/// Where the `k`-th deleted entry set at or after byte `i` of a directory
/// buffer starts, stepping as the parse does; -1 where there is none.
pub open spec fn nth_deleted_set(bytes: Seq<u8>, i: int, k: nat) -> int
    decreases bytes.len() - i,
{
    if i < 0 || i + 32 > bytes.len() || bytes[i] == 0 {
        -1
    } else if bytes[i] == DELETED_FILE {
        let n = bytes[i + 1] as int + 1;
        if k == 0 {
            i
        } else if i + 32 * n <= bytes.len() {
            nth_deleted_set(bytes, i + 32 * n, (k - 1) as nat)
        } else {
            -1
        }
    } else {
        nth_deleted_set(bytes, i + 32, k)
    }
}

/// Whether `e` is the entry described by the deleted set that starts at
/// byte `start` of `bytes`.
pub open spec fn entry_of_set_at(e: DirectoryEntry, bytes: Seq<u8>, start: int) -> bool {
    exists|set: Seq<[u8; 32]>|
        #[trigger] entries_at(set, bytes, start, bytes[start + 1] as int + 1) && deleted_entry_of(e, set)
}

/// Whether a set is well formed depends only on the bytes of its entries.
proof fn lemma_set_valid_views(a: Seq<[u8; 32]>, b: Seq<[u8; 32]>)
    requires
        a.len() == b.len(),
        forall|k: int| 0 <= k < a.len() ==> (#[trigger] a[k])@ == b[k]@,
    ensures
        deleted_set_valid(a) == deleted_set_valid(b),
{
    if a.len() >= 2 {
        let n = a[1]@[3] as int;
        assert(a[0]@ == b[0]@ && a[1]@ == b[1]@);
        if a.len() == a[0]@[1] as int + 1 && a[0]@[1] as int == 1 + (n + 14) / 15 {
            assert(deleted_name_units(a, n) =~= deleted_name_units(b, n)) by {
                assert forall|u: int| 0 <= u < n implies deleted_name_unit(a, u) == deleted_name_unit(b, u) by {
                    assert(u / 15 < (n + 14) / 15) by (nonlinear_arith)
                        requires
                            0 <= u < n,
                    ;
                    assert(a[2 + u / 15]@ == b[2 + u / 15]@);
                }
            }
            if deleted_set_valid(a) {
                assert forall|i: int| 2 <= i < b.len() implies (#[trigger] b[i])@[0] == DELETED_NAME by {
                    assert(a[i]@ == b[i]@);
                }
            }
            if deleted_set_valid(b) {
                assert forall|i: int| 2 <= i < a.len() implies (#[trigger] a[i])@[0] == DELETED_NAME by {
                    assert(a[i]@ == b[i]@);
                }
            }
        }
    }
}

/// Parses every deleted entry set in a directory buffer, up to its end
/// marker. A truncated or malformed deleted set fails the parse; other
/// entries are stepped over one at a time.
pub fn parse_deleted_directory_entries(bytes: &[u8]) -> (r: RecoveryResult<Vec<DirectoryEntry>>)
    ensures
        bytes@.len() % 32 != 0 ==> r is Err,
        bytes@.len() % 32 == 0 ==> (r is Ok <==> deleted_sets_valid(bytes@, 0)),
        r matches Ok(v) ==> v@.len() == deleted_sets_count(bytes@, 0),
        r matches Ok(v) ==> forall|k: int| 0 <= k < v@.len() ==> (#[trigger] v@[k]).deleted,
        r matches Ok(v) ==> forall|k: int|
            0 <= k < v@.len() ==> entry_of_set_at(#[trigger] v@[k], bytes@, nth_deleted_set(bytes@, 0, k as nat)),
{
    if bytes.len() % 32 != 0 {
        return Err(io_error("exFAT deleted directory buffer is not entry-aligned"));
    }
    let mut out: Vec<DirectoryEntry> = Vec::new();
    let mut i: usize = 0;
    while i < bytes.len()
        invariant
            i <= bytes@.len(),
            bytes@.len() % 32 == 0,
            i % 32 == 0,
            forall|k: int| 0 <= k < out@.len() ==> (#[trigger] out@[k]).deleted,
            deleted_sets_valid(bytes@, 0) == deleted_sets_valid(bytes@, i as int),
            deleted_sets_valid(bytes@, i as int) ==> out@.len() + deleted_sets_count(bytes@, i as int)
                == deleted_sets_count(bytes@, 0),
            forall|k: int|
                0 <= k < out@.len() ==> entry_of_set_at(#[trigger] out@[k], bytes@, nth_deleted_set(bytes@, 0, k as nat)),
            forall|j: nat| nth_deleted_set(bytes@, 0, out@.len() + j) == #[trigger] nth_deleted_set(bytes@, i as int, j),
        decreases bytes@.len() - i,
    {
        if bytes[i] == 0x00 {
            return Ok(out);
        }
        if bytes[i] == DELETED_FILE {
            let count = bytes[i + 1] as usize;
            let span_len = (count + 1) * 32;
            if span_len > bytes.len() - i {
                return Err(io_error("truncated deleted exFAT file entry set"));
            }
            let end = i + span_len;
            let mut set: Vec<[u8; 32]> = Vec::new();
            let mut p = i;
            while p < end
                invariant
                    i <= p <= end <= bytes@.len(),
                    (p - i) % 32 == 0,
                    (end - i) % 32 == 0,
                    set@.len() * 32 == p - i,
                    forall|k: int| 0 <= k < set@.len() ==> (#[trigger] set@[k])@ == bytes@.subrange(
                        i + 32 * k,
                        i + 32 * k + 32,
                    ),
                decreases end - p,
            {
                let mut entry = [0u8; 32];
                let mut q: usize = 0;
                while q < 32
                    invariant
                        q <= 32,
                        p + 32 <= end <= bytes@.len(),
                        forall|t: int| 0 <= t < q ==> entry@[t] == bytes@[p + t],
                    decreases 32 - q,
                {
                    entry.set(q, bytes[p + q]);
                    q = q + 1;
                }
                assert(entry@ =~= bytes@.subrange(p as int, p + 32));
                set.push(entry);
                p = p + 32;
            }
            proof {
                assert(entries_at(set@, bytes@, i as int, count + 1));
                if !deleted_set_valid(set@) {
                    assert forall|other: Seq<[u8; 32]>| #[trigger] entries_at(other, bytes@, i as int, count + 1) implies !deleted_set_valid(other) by {
                        lemma_set_valid_views(other, set@);
                    }
                }
            }
            let entry = parse_deleted_directory_entry_set(set.as_slice())?;
            let ghost before = out@;
            out.push(entry);
            assert forall|k: int| 0 <= k < out@.len() implies (#[trigger] out@[k]).deleted by {
                if k < before.len() {
                    assert(out@[k] == before[k]);
                }
            }
            proof {
                assert(nth_deleted_set(bytes@, i as int, 0) == i);
                assert(nth_deleted_set(bytes@, 0, before.len() + 0) == nth_deleted_set(bytes@, i as int, 0));
                assert forall|k: int| 0 <= k < out@.len() implies entry_of_set_at(
                    #[trigger] out@[k],
                    bytes@,
                    nth_deleted_set(bytes@, 0, k as nat),
                ) by {
                    if k < before.len() {
                        assert(out@[k] == before[k]);
                    } else {
                        assert(out@[k] == entry);
                        assert(entries_at(set@, bytes@, i as int, bytes@[i + 1] as int + 1));
                    }
                }
                assert forall|j: nat| nth_deleted_set(bytes@, 0, out@.len() + j) == #[trigger] nth_deleted_set(bytes@, end as int, j) by {
                    assert(nth_deleted_set(bytes@, 0, before.len() + (j + 1) as nat) == nth_deleted_set(bytes@, i as int, (j + 1) as nat));
                }
            }
            i = end;
        } else {
            proof {
                assert forall|j: nat| nth_deleted_set(bytes@, 0, out@.len() + j) == #[trigger] nth_deleted_set(bytes@, i + 32, j) by {
                    assert(nth_deleted_set(bytes@, 0, out@.len() + j) == nth_deleted_set(bytes@, i as int, j));
                }
            }
            i = i + 32;
        }
    }
    Ok(out)
}

/// The byte range of `cluster`, which must lie inside the volume's range.
pub fn cluster_range_in(volume: &ExfatVolume, volume_range: ByteRange, cluster: u32) -> (r: RecoveryResult<ByteRange>)
    ensures
        r matches Ok(rg) ==> {
            &&& FIRST_CLUSTER <= cluster < volume.spec_cluster_limit()
            &&& rg.offset == volume.spec_cluster_offset(volume_range.offset as int, cluster)
            &&& rg.length == volume.bytes_per_sector * volume.sectors_per_cluster
            &&& rg.spec_end() <= volume_range.spec_end()
        },
        !(FIRST_CLUSTER <= cluster < volume.spec_cluster_limit()) ==> r is Err,
        r is Ok <==> volume.cluster_in_range(volume_range, cluster),
{
    let offset = volume.cluster_offset(volume_range.offset, cluster)?;
    let length = volume.cluster_size()?;
    let range = ByteRange::new(offset, length)?;
    let end = volume_range.end()?;
    if offset + length > end {
        return Err(RecoveryError::OutOfRange { offset, length, capacity: end });
    }
    Ok(range)
}

/// Whether `ranges` are the cluster ranges of `clusters`, trimmed so that
/// together they hold exactly `length` bytes: every one full but the last.
pub open spec fn trimmed_cluster_ranges(
    volume: ExfatVolume,
    start: int,
    clusters: Seq<u32>,
    ranges: Seq<ByteRange>,
    length: int,
) -> bool {
    let cs = volume.bytes_per_sector * volume.sectors_per_cluster;
    &&& ranges.len() == clusters.len()
    &&& forall|i: int|
        0 <= i < ranges.len() ==> (#[trigger] ranges[i]).offset == volume.spec_cluster_offset(start, clusters[i])
            && ranges[i].length == (if length - i * cs < cs {
            length - i * cs
        } else {
            cs
        })
    &&& ranges.len() * cs >= length
    &&& (ranges.len() - 1) * cs < length
}

/// Cuts the clusters' ranges so they hold exactly `length` bytes.
fn trim_ranges(volume: &ExfatVolume, volume_range: ByteRange, clusters: &Vec<u32>, length: u64) -> (r: RecoveryResult<
    Vec<ByteRange>,
>)
    requires
        volume.bytes_per_sector * volume.sectors_per_cluster > 0,
        clusters@.len() * (volume.bytes_per_sector * volume.sectors_per_cluster) >= length,
        (clusters@.len() - 1) * (volume.bytes_per_sector * volume.sectors_per_cluster) < length,
    ensures
        r matches Ok(ranges) ==> trimmed_cluster_ranges(*volume, volume_range.offset as int, clusters@, ranges@, length as int),
        r is Ok <==> forall|i: int| 0 <= i < clusters@.len() ==> #[trigger] volume.cluster_in_range(volume_range, clusters@[i]),
{
    let mut remaining = length;
    let mut out: Vec<ByteRange> = Vec::new();
    let ghost cs = volume.bytes_per_sector * volume.sectors_per_cluster;
    let mut i: usize = 0;
    while i < clusters.len()
        invariant
            i <= clusters@.len(),
            cs == volume.bytes_per_sector * volume.sectors_per_cluster,
            cs > 0,
            clusters@.len() * cs >= length,
            (clusters@.len() - 1) * cs < length,
            out@.len() == i,
            remaining == if length - i * cs > 0 { length - i * cs } else { 0 },
            forall|k: int|
                0 <= k < i ==> (#[trigger] out@[k]).offset == volume.spec_cluster_offset(
                    volume_range.offset as int,
                    clusters@[k],
                ) && out@[k].length == (if length - k * cs < cs {
                    length - k * cs
                } else {
                    cs
                }),
            forall|k: int| 0 <= k < i ==> #[trigger] volume.cluster_in_range(volume_range, clusters@[k]),
        decreases clusters@.len() - i,
    {
        let full = cluster_range_in(volume, volume_range, clusters[i])?;
        proof {
            assert(i * cs < length) by (nonlinear_arith)
                requires
                    i < clusters@.len(),
                    (clusters@.len() - 1) * cs < length,
                    cs > 0,
            ;
            assert((i + 1) * cs == i * cs + cs) by (nonlinear_arith);
        }
        let piece = if remaining < full.length {
            remaining
        } else {
            full.length
        };
        out.push(ByteRange { offset: full.offset, length: piece });
        remaining = remaining - piece;
        i = i + 1;
    }
    Ok(out)
}

/// Whether `ranges` are the byte ranges of `entry`'s data on a volume starting
/// at `base`: none for an empty file; otherwise the ranges of clusters
/// starting at its first cluster, consecutive when the stream is recorded as
/// contiguous, trimmed to its data length.
pub open spec fn file_ranges(volume: ExfatVolume, base: int, entry: DirectoryEntry, ranges: Seq<ByteRange>) -> bool {
    if entry.data_length == 0 {
        ranges.len() == 0
    } else {
        exists|clusters: Seq<u32>|
            clusters.len() > 0 && clusters[0] == entry.first_cluster && #[trigger] trimmed_cluster_ranges(
                volume,
                base,
                clusters,
                ranges,
                entry.data_length as int,
            ) && (entry.no_fat_chain ==> forall|i: int|
                0 <= i < clusters.len() ==> #[trigger] clusters[i] == entry.first_cluster + i)
    }
}

/// The bytes of `ranges` of `contents`, one after another.
pub open spec fn ranges_bytes(contents: Seq<u8>, ranges: Seq<ByteRange>) -> Seq<u8>
    decreases ranges.len(),
{
    if ranges.len() == 0 {
        Seq::empty()
    } else {
        let r = ranges.last();
        ranges_bytes(contents, ranges.drop_last()) + contents.subrange(r.offset as int, r.offset + r.length)
    }
}

/// The sum of the ranges' lengths.
pub open spec fn ranges_total(ranges: Seq<ByteRange>) -> int
    decreases ranges.len(),
{
    if ranges.len() == 0 {
        0
    } else {
        ranges_total(ranges.drop_last()) + ranges.last().length
    }
}

/// Whether a file's clusters can be located and placed: an empty file, or
/// one with a valid first cluster, a cluster size that fits, a cluster
/// count that fits a `u32`, a cluster heap inside the volume, and either a
/// contiguous run inside the heap or a walkable chain long enough, with no
/// end mark among its later clusters.
pub open spec fn file_extents_locatable(volume: ExfatVolume, contents: Seq<u8>, range: ByteRange, entry: DirectoryEntry) -> bool {
    let cs = volume.bytes_per_sector * volume.sectors_per_cluster;
    let needed = (entry.data_length - 1) / cs + 1;
    entry.data_length == 0 || {
        &&& entry.first_cluster >= 2
        &&& 0 < cs <= u64::MAX
        &&& needed <= u32::MAX
        &&& volume.heap_in_range(range)
        &&& entry.no_fat_chain ==> entry.first_cluster + needed - 1 < volume.spec_cluster_limit()
            && entry.first_cluster + needed - 1 <= u32::MAX
        &&& !entry.no_fat_chain ==> exists|w: Seq<u32>|
            #[trigger] volume.walkable_chain(contents, range, entry.first_cluster, w) && w.len() >= needed && forall|k: int|
                1 <= k < w.len() ==> w[k] != EXFAT_END_OF_CHAIN
    }
}

/// Trimmed cluster ranges hold exactly the requested length, and each lies
/// inside the volume when its cluster does.
proof fn lemma_trimmed_total(volume: ExfatVolume, base: int, clusters: Seq<u32>, ranges: Seq<ByteRange>, length: int, m: int)
    requires
        trimmed_cluster_ranges(volume, base, clusters, ranges, length),
        volume.bytes_per_sector * volume.sectors_per_cluster > 0,
        length > 0,
        0 <= m <= ranges.len(),
    ensures
        ranges_total(ranges.take(m)) == (if m * (volume.bytes_per_sector * volume.sectors_per_cluster) < length {
            m * (volume.bytes_per_sector * volume.sectors_per_cluster)
        } else {
            length
        }),
    decreases m,
{
    let cs = volume.bytes_per_sector * volume.sectors_per_cluster;
    if m == 0 {
        assert(ranges.take(0) == Seq::<ByteRange>::empty());
    } else {
        lemma_trimmed_total(volume, base, clusters, ranges, length, m - 1);
        assert(ranges[m - 1].length == (if length - (m - 1) * cs < cs {
            length - (m - 1) * cs
        } else {
            cs
        }));
        assert(ranges.take(m).drop_last() == ranges.take(m - 1));
        assert(ranges.take(m).last() == ranges[m - 1]);
        assert((m - 1) * cs < length) by (nonlinear_arith)
            requires
                m <= ranges.len(),
                (ranges.len() - 1) * cs < length,
                cs > 0,
        ;
        assert(m * cs == (m - 1) * cs + cs) by (nonlinear_arith);
    }
}

/// A prefix of a list of ranges holds no more bytes than the whole list.
proof fn lemma_ranges_total_prefix(ranges: Seq<ByteRange>, k: int)
    requires
        0 <= k <= ranges.len(),
    ensures
        0 <= ranges_total(ranges.take(k)) <= ranges_total(ranges),
    decreases ranges.len(),
{
    if k == ranges.len() {
        assert(ranges.take(k) == ranges);
        lemma_ranges_total_nonnegative(ranges);
    } else {
        assert(ranges.drop_last().take(k) == ranges.take(k));
        lemma_ranges_total_prefix(ranges.drop_last(), k);
    }
}

/// A list of ranges never holds a negative number of bytes.
proof fn lemma_ranges_total_nonnegative(ranges: Seq<ByteRange>)
    ensures
        ranges_total(ranges) >= 0,
    decreases ranges.len(),
{
    if ranges.len() > 0 {
        lemma_ranges_total_nonnegative(ranges.drop_last());
    }
}

/// Resolves the byte ranges of an active file, trimmed to its data length:
/// a contiguous stream (no FAT chain) takes consecutive clusters from its
/// first, a fragmented one follows the FAT.
pub fn active_file_extents<D: BlockDevice>(
    volume: &ExfatVolume,
    device: &D,
    volume_range: ByteRange,
    entry: &DirectoryEntry,
) -> (r: RecoveryResult<Vec<ByteRange>>)
    ensures
        entry.data_length == 0 ==> (r matches Ok(v) && v@.len() == 0),
        entry.data_length > 0 && entry.first_cluster < 2 ==> r is Err,
        r matches Ok(ranges) ==> file_ranges(*volume, volume_range.offset as int, *entry, ranges@),
        r matches Ok(ranges) ==> ranges_total(ranges@) == entry.data_length,
        r matches Ok(ranges) ==> forall|i: int|
            0 <= i < ranges@.len() ==> (#[trigger] ranges@[i]).offset + ranges@[i].length <= volume_range.spec_end(),
        readable(device) && file_extents_locatable(*volume, device.contents(), volume_range, *entry) ==> r is Ok,
{
    if entry.data_length == 0 {
        assert(Seq::<ByteRange>::empty().len() == 0);
        return Ok(Vec::new());
    }
    if entry.first_cluster < 2 {
        return Err(io_error("non-empty exFAT file has invalid first cluster"));
    }
    let cs = volume.cluster_size()?;
    if cs == 0 {
        return Err(io_error("exFAT volume has empty clusters"));
    }
    let needed = (entry.data_length - 1) / cs + 1;
    proof {
        let n = entry.data_length as int;
        let c = cs as int;
        assert(needed * c >= n && (needed - 1) * c < n) by (nonlinear_arith)
            requires
                c > 0,
                needed == (n - 1) / c + 1,
                n > 0,
        ;
    }
    if needed > u32::MAX as u64 {
        return Err(RecoveryError::LengthTooLarge { length: entry.data_length });
    }
    let needed32 = needed as u32;
    let clusters: Vec<u32> = if entry.no_fat_chain {
        let last = match entry.first_cluster.checked_add(needed32 - 1) {
            Some(v) => v,
            None => return Err(RecoveryError::RangeOverflow),
        };
        if last as u64 >= volume.cluster_limit() {
            return Err(io_error("contiguous exFAT file exceeds cluster heap"));
        }
        let mut v: Vec<u32> = Vec::new();
        let mut c: u64 = entry.first_cluster as u64;
        assert(last - entry.first_cluster + 1 == needed32);
        while c <= last as u64
            invariant
                entry.first_cluster <= c <= last + 1,
                v@.len() == c - entry.first_cluster,
                forall|i: int| 0 <= i < v@.len() ==> #[trigger] v@[i] == entry.first_cluster + i,
            decreases last + 1 - c,
        {
            v.push(c as u32);
            c = c + 1;
        }
        assert(v@.len() > 0 ==> v@[0] == entry.first_cluster + 0);
        v
    } else {
        let chain = cluster_chain(device, volume, volume_range, entry.first_cluster)?;
        proof {
            if readable(device) && file_extents_locatable(*volume, device.contents(), volume_range, *entry) {
                let w = choose|w: Seq<u32>|
                    #[trigger] volume.walkable_chain(device.contents(), volume_range, entry.first_cluster, w) && w.len()
                        >= needed && forall|k: int| 1 <= k < w.len() ==> w[k] != EXFAT_END_OF_CHAIN;
                volume.lemma_chain_full(device.contents(), volume_range, entry.first_cluster, chain@, w);
            }
        }
        if (chain.len() as u64) < needed {
            return Err(io_error("exFAT file cluster chain is shorter than data length"));
        }
        let v = crate::bytes::copy_range(chain.as_slice(), 0, needed as usize);
        assert(v@[0] == chain@[0]);
        v
    };
    assert(clusters@.len() == needed);
    assert(clusters@.len() > 0 && clusters@[0] == entry.first_cluster);
    proof {
        if readable(device) && file_extents_locatable(*volume, device.contents(), volume_range, *entry) {
            assert forall|i: int| 0 <= i < clusters@.len() implies #[trigger] volume.cluster_in_range(volume_range, clusters@[i]) by {
                assert(FIRST_CLUSTER <= clusters@[i] < volume.spec_cluster_limit());
            }
        }
    }
    let ranges = trim_ranges(volume, volume_range, &clusters, entry.data_length)?;
    assert(trimmed_cluster_ranges(*volume, volume_range.offset as int, clusters@, ranges@, entry.data_length as int));
    proof {
        lemma_trimmed_total(*volume, volume_range.offset as int, clusters@, ranges@, entry.data_length as int, ranges@.len() as int);
        assert(ranges@.take(ranges@.len() as int) == ranges@);
        assert(ranges@.len() * cs >= entry.data_length);
        assert forall|i: int| 0 <= i < ranges@.len() implies (#[trigger] ranges@[i]).offset + ranges@[i].length
            <= volume_range.spec_end() by {
            assert(volume.cluster_in_range(volume_range, clusters@[i]));
        }
    }
    Ok(ranges)
}

/// Reads a deleted file from the clusters its entry set still names. The
/// filesystem no longer counts them as allocated, so the bytes are a
/// best-effort recovery; `max_bytes` keeps corrupt metadata from forcing an
/// unbounded allocation.
pub fn read_deleted_file<D: BlockDevice>(
    volume: &ExfatVolume,
    device: &D,
    volume_range: ByteRange,
    entry: &DirectoryEntry,
    max_bytes: u64,
) -> (r: RecoveryResult<Vec<u8>>)
    ensures
        entry.data_length > max_bytes ==> r is Err,
        entry.data_length > 0 && entry.first_cluster < 2 ==> r is Err,
        r matches Ok(bytes) ==> {
            &&& bytes@.len() == entry.data_length
            &&& exists|ranges: Seq<ByteRange>|
                #[trigger] file_ranges(*volume, volume_range.offset as int, *entry, ranges) && bytes@ == ranges_bytes(
                    device.contents(),
                    ranges,
                )
        },
        readable(device) && entry.data_length <= max_bytes && entry.data_length <= usize::MAX
            && volume_range.spec_end() <= device.contents().len() && file_extents_locatable(
            *volume,
            device.contents(),
            volume_range,
            *entry,
        ) ==> r is Ok,
{
    if entry.data_length > max_bytes {
        return Err(RecoveryError::LengthTooLarge { length: entry.data_length });
    }
    if entry.data_length > usize::MAX as u64 {
        return Err(RecoveryError::LengthTooLarge { length: entry.data_length });
    }
    let length = entry.data_length as usize;
    let extents = active_file_extents(volume, device, volume_range, entry)?;
    let mut output: Vec<u8> = Vec::new();
    let mut i: usize = 0;
    while i < extents.len()
        invariant
            i <= extents@.len(),
            output@.len() <= length,
            output@ == ranges_bytes(device.contents(), extents@.take(i as int)),
            output@.len() == ranges_total(extents@.take(i as int)),
            ranges_total(extents@) == length,
            forall|j: int|
                0 <= j < extents@.len() ==> (#[trigger] extents@[j]).offset + extents@[j].length
                    <= volume_range.spec_end(),
        decreases extents@.len() - i,
    {
        let extent = extents[i];
        assert(extents@.take(i + 1).drop_last() == extents@.take(i as int));
        assert(extents@.take(i + 1).last() == extent);
        proof {
            lemma_ranges_total_prefix(extents@, i + 1);
        }
        if extent.length > (length - output.len()) as u64 {
            return Err(io_error("deleted exFAT file extents exceed logical file length"));
        }
        let bytes = read_exact(device, extent.offset, extent.length)?;
        let ghost before = output@;
        let mut k: usize = 0;
        while k < bytes.len()
            invariant
                k <= bytes@.len(),
                output@.len() + bytes@.len() - k <= length,
                output@ == before + bytes@.take(k as int),
            decreases bytes@.len() - k,
        {
            output.push(bytes[k]);
            assert(bytes@.take(k + 1) == bytes@.take(k as int).push(bytes@[k as int]));
            k = k + 1;
        }
        assert(bytes@.take(bytes@.len() as int) == bytes@);
        i = i + 1;
    }
    assert(extents@.take(extents@.len() as int) == extents@);
    if output.len() != length {
        return Err(io_error("deleted exFAT file extents do not cover logical file length"));
    }
    Ok(output)
}

} // verus!
