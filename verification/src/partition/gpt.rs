//! The GUID partition table: its checksummed header and entry array.

use vstd::prelude::*;
use crate::bytes::{all_zero, le_u32, le_u64, spec_le_u32, spec_le_u64};
use crate::device::{read_exact, readable, span, BlockDevice};
use crate::partition::{Diagnostic, DiscoveryResult, DiskGeometry, EntryOutcome, PartitionCandidate};
use crate::range::{io_error, ByteRange, RecoveryError, RecoveryResult};

verus! {

pub const GPT_HEADER_SIZE: usize = 92;
pub const PARTITION_ENTRY_MIN_SIZE: u32 = 128;
pub const MAX_TABLE_BYTES: u64 = 16 * 1024 * 1024;
/// The partition type code reported for every GPT partition.
pub const GPT_TYPE_CODE: u8 = 0xEE;

/// `n` more steps of the bitwise, reflected CRC-32 register update with the
/// IEEE polynomial `0xEDB88320`.
pub open spec fn crc32_shift(crc: u32, n: nat) -> u32
    decreases n,
{
    if n == 0 {
        crc
    } else {
        crc32_shift(
            if crc & 1u32 == 1u32 {
                (crc >> 1u32) ^ 0xEDB8_8320u32
            } else {
                crc >> 1u32
            },
            (n - 1) as nat,
        )
    }
}

/// The CRC-32 register after `bytes`, starting from all ones.
pub open spec fn crc32_register(bytes: Seq<u8>) -> u32
    decreases bytes.len(),
{
    if bytes.len() == 0 {
        0xFFFF_FFFFu32
    } else {
        crc32_shift(crc32_register(bytes.drop_last()) ^ (bytes.last() as u32), 8)
    }
}

/// The CRC-32 (IEEE) checksum of `bytes`: the register after the bytes,
/// inverted.
pub open spec fn crc32_of(bytes: Seq<u8>) -> u32 {
    crc32_register(bytes) ^ 0xFFFF_FFFFu32
}

/// `crc32fast::hash`, which computes the CRC-32 (IEEE) checksum of `bytes`:
/// reflected, polynomial `0xEDB88320`, initial value and final inversion
/// `0xFFFFFFFF`.
#[verifier::external_body]
fn crc32(bytes: &[u8]) -> (r: u32)
    ensures
        r == crc32_of(bytes@),
{
    crc32fast::hash(bytes)
}

/// A GPT header.
#[derive(Clone, Copy, Debug, PartialEq, Eq)]
pub struct GptHeader {
    pub header_size: u32,
    pub header_crc32: u32,
    pub current_lba: u64,
    pub backup_lba: u64,
    pub first_usable_lba: u64,
    pub last_usable_lba: u64,
    pub partition_entries_lba: u64,
    pub partition_entry_count: u32,
    pub partition_entry_size: u32,
    pub partition_entries_crc32: u32,
}

/// The bytes a header's CRC covers: its first `size` bytes, with the CRC
/// field itself read as zero.
pub open spec fn header_crc_input(bytes: Seq<u8>, size: int) -> Seq<u8> {
    bytes.take(16) + seq![0u8, 0u8, 0u8, 0u8] + bytes.subrange(20, size)
}

/// Checks a header's CRC over its first `header_size` bytes.
pub fn validate_gpt_header_crc(bytes: &[u8], header_size: usize, expected: u32) -> (r: RecoveryResult<()>)
    ensures
        r is Ok <==> GPT_HEADER_SIZE <= header_size <= bytes@.len() && crc32_of(
            header_crc_input(bytes@, header_size as int),
        ) == expected,
{
    if header_size < GPT_HEADER_SIZE || header_size > bytes.len() {
        return Err(io_error("invalid GPT header size for CRC"));
    }
    let mut copy = crate::bytes::copy_range(bytes, 0, header_size);
    copy.set(16, 0);
    copy.set(17, 0);
    copy.set(18, 0);
    copy.set(19, 0);
    assert(copy@ =~= header_crc_input(bytes@, header_size as int));
    if crc32(copy.as_slice()) != expected {
        return Err(io_error("GPT header CRC mismatch"));
    }
    Ok(())
}

/// The signature a GPT header starts with, `EFI PART`.
pub open spec fn gpt_signature() -> Seq<u8> {
    seq![0x45u8, 0x46u8, 0x49u8, 0x20u8, 0x50u8, 0x41u8, 0x52u8, 0x54u8]
}

/// Whether `bytes` hold a well-formed GPT header.
pub open spec fn gpt_header_valid(b: Seq<u8>) -> bool {
    let size = spec_le_u32(b, 12);
    let count = spec_le_u32(b, 80);
    let entry = spec_le_u32(b, 84);
    &&& b.len() >= GPT_HEADER_SIZE
    &&& b.take(8) == gpt_signature()
    &&& GPT_HEADER_SIZE <= size <= b.len()
    &&& crc32_of(header_crc_input(b, size)) == spec_le_u32(b, 16)
    &&& count != 0
    &&& entry >= PARTITION_ENTRY_MIN_SIZE
    &&& entry % 8 == 0
}

/// The header fields `bytes` hold.
pub open spec fn gpt_header_of(b: Seq<u8>) -> GptHeader {
    GptHeader {
        header_size: spec_le_u32(b, 12) as u32,
        header_crc32: spec_le_u32(b, 16) as u32,
        current_lba: spec_le_u64(b, 24) as u64,
        backup_lba: spec_le_u64(b, 32) as u64,
        first_usable_lba: spec_le_u64(b, 40) as u64,
        last_usable_lba: spec_le_u64(b, 48) as u64,
        partition_entries_lba: spec_le_u64(b, 72) as u64,
        partition_entry_count: spec_le_u32(b, 80) as u32,
        partition_entry_size: spec_le_u32(b, 84) as u32,
        partition_entries_crc32: spec_le_u32(b, 88) as u32,
    }
}

/// Parses a GPT header, checking its signature, size, CRC and entry
/// geometry.
pub fn parse_gpt_header(bytes: &[u8]) -> (r: RecoveryResult<GptHeader>)
    ensures
        r is Ok <==> gpt_header_valid(bytes@),
        r matches Ok(h) ==> h == gpt_header_of(bytes@),
{
    let signature: [u8; 8] = [0x45, 0x46, 0x49, 0x20, 0x50, 0x41, 0x52, 0x54];
    assert(signature@ == gpt_signature());
    if bytes.len() < GPT_HEADER_SIZE || !crate::bytes::bytes_match_at(bytes, 0, &signature) {
        return Err(io_error("invalid GPT signature"));
    }
    assert(bytes@.subrange(0, 8) == bytes@.take(8));
    let header_size = le_u32(bytes, 12);
    if (header_size as u64) < GPT_HEADER_SIZE as u64 || header_size as u64 > bytes.len() as u64 {
        return Err(io_error("invalid GPT header size"));
    }
    let header_crc32 = le_u32(bytes, 16);
    validate_gpt_header_crc(bytes, header_size as usize, header_crc32)?;
    let partition_entry_count = le_u32(bytes, 80);
    let partition_entry_size = le_u32(bytes, 84);
    if partition_entry_count == 0 || partition_entry_size < PARTITION_ENTRY_MIN_SIZE || partition_entry_size % 8 != 0 {
        return Err(io_error("invalid GPT partition entry geometry"));
    }
    Ok(
        GptHeader {
            header_size,
            header_crc32,
            current_lba: le_u64(bytes, 24),
            backup_lba: le_u64(bytes, 32),
            first_usable_lba: le_u64(bytes, 40),
            last_usable_lba: le_u64(bytes, 48),
            partition_entries_lba: le_u64(bytes, 72),
            partition_entry_count,
            partition_entry_size,
            partition_entries_crc32: le_u32(bytes, 88),
        },
    )
}

/// The size of a header's entry array, refused beyond the table limit.
fn table_bytes(header: &GptHeader) -> (r: RecoveryResult<u64>)
    ensures
        r is Ok <==> header.partition_entry_count * header.partition_entry_size <= MAX_TABLE_BYTES,
        r matches Ok(n) ==> n == header.partition_entry_count * header.partition_entry_size,
{
    let count = header.partition_entry_count as u64;
    let size = header.partition_entry_size as u64;
    assert(count * size <= u64::MAX) by (nonlinear_arith)
        requires
            count <= 0xffff_ffff,
            size <= 0xffff_ffff,
    ;
    let bytes = count * size;
    if bytes > MAX_TABLE_BYTES {
        return Err(RecoveryError::LengthTooLarge { length: bytes });
    }
    Ok(bytes)
}

/// Whether sector `lba` of `contents`, of `ss` bytes, lies in the source
/// and holds a valid GPT header that says it lies there.
pub open spec fn gpt_header_at(contents: Seq<u8>, ss: int, lba: int) -> bool {
    let off = lba * ss;
    &&& 0 <= off <= u64::MAX
    &&& off + ss <= contents.len()
    &&& gpt_header_valid(contents.subrange(off, off + ss))
    &&& gpt_header_of(contents.subrange(off, off + ss)).current_lba == lba
}

/// Whether the entry array header `h` names lies in `contents`, is within
/// the table limit, and matches the header's CRC.
pub open spec fn gpt_table_ok(contents: Seq<u8>, ss: int, h: GptHeader) -> bool {
    let bytes = h.partition_entry_count * h.partition_entry_size;
    let start = h.partition_entries_lba * ss;
    &&& bytes <= MAX_TABLE_BYTES
    &&& start <= u64::MAX
    &&& start + bytes <= contents.len()
    &&& crc32_of(contents.subrange(start, start + bytes)) == h.partition_entries_crc32
}

/// Whether header `h` fits a source of `cap` bytes and no entry of its
/// array `table` has a byte range that overflows.
pub open spec fn gpt_entries_ok(table: Seq<u8>, h: GptHeader, ss: int, cap: int) -> bool {
    &&& gpt_geometry_ok(h, cap / ss)
    &&& forall|i: int| 0 <= i < h.partition_entry_count ==> !(#[trigger] gpt_outcome(table, h, i, ss, cap) is Failed)
}

/// Whether the table whose header sits in sector `lba` reads through: a
/// valid header, an entry array that matches its CRC, and entries that fit.
pub open spec fn gpt_usable(contents: Seq<u8>, ss: int, lba: int) -> bool {
    let off = lba * ss;
    let h = gpt_header_of(contents.subrange(off, off + ss));
    let start = h.partition_entries_lba * ss;
    let bytes = h.partition_entry_count * h.partition_entry_size;
    &&& gpt_header_at(contents, ss, lba)
    &&& gpt_table_ok(contents, ss, h)
    &&& gpt_entries_ok(contents.subrange(start, start + bytes), h, ss, contents.len() as int)
}

/// Reads and parses the header in sector `lba`, which must say it lies
/// there.
fn read_header_at<D: BlockDevice>(device: &D, geometry: DiskGeometry, lba: u64) -> (r: RecoveryResult<GptHeader>)
    ensures
        r matches Ok(h) ==> {
            let sector = span(device, lba * geometry.logical_sector_size, geometry.logical_sector_size as int);
            &&& gpt_header_valid(sector)
            &&& h == gpt_header_of(sector)
            &&& h.current_lba == lba
        },
        r is Ok ==> gpt_header_at(device.contents(), geometry.logical_sector_size as int, lba as int),
        readable(device) && gpt_header_at(device.contents(), geometry.logical_sector_size as int, lba as int)
            ==> r is Ok,
{
    let offset = match lba.checked_mul(geometry.logical_sector_size) {
        Some(v) => v,
        None => return Err(RecoveryError::RangeOverflow),
    };
    let sector = read_exact(device, offset, geometry.logical_sector_size)?;
    let header = parse_gpt_header(sector.as_slice())?;
    if header.current_lba != lba {
        return Err(io_error("GPT header current LBA does not match location"));
    }
    Ok(header)
}

/// Reads a header's entry array and checks its CRC.
fn load_table<D: BlockDevice>(device: &D, geometry: DiskGeometry, header: &GptHeader) -> (r: RecoveryResult<Vec<u8>>)
    ensures
        r matches Ok(table) ==> {
            &&& table@ == span(
                device,
                header.partition_entries_lba * geometry.logical_sector_size,
                header.partition_entry_count * header.partition_entry_size,
            )
            &&& crc32_of(table@) == header.partition_entries_crc32
        },
        readable(device) && gpt_table_ok(device.contents(), geometry.logical_sector_size as int, *header) ==> r is Ok,
        r is Ok ==> gpt_table_ok(device.contents(), geometry.logical_sector_size as int, *header),
{
    let bytes = table_bytes(header)?;
    let offset = match header.partition_entries_lba.checked_mul(geometry.logical_sector_size) {
        Some(v) => v,
        None => return Err(RecoveryError::RangeOverflow),
    };
    let range = ByteRange::new(offset, bytes)?;
    range.validate_within(device.capacity())?;
    let table = read_exact(device, offset, bytes)?;
    if crc32(table.as_slice()) != header.partition_entries_crc32 {
        return Err(io_error("GPT partition entry array CRC mismatch"));
    }
    Ok(table)
}

/// Whether a header's geometry is consistent with a disk of `sectors`
/// sectors.
pub open spec fn gpt_geometry_ok(h: GptHeader, sectors: int) -> bool {
    &&& h.current_lba < sectors
    &&& h.backup_lba < sectors
    &&& h.current_lba != h.backup_lba
    &&& h.first_usable_lba <= h.last_usable_lba
    &&& h.last_usable_lba < sectors
}

/// Whether the entry at `start` has an all-zero type GUID, marking it
/// unused.
pub open spec fn entry_blank(table: Seq<u8>, start: int) -> bool {
    forall|k: int| start <= k < start + 16 ==> table[k] == 0
}

/// What entry `i` of the array `table` contributes.
pub open spec fn gpt_outcome(table: Seq<u8>, h: GptHeader, i: int, sector: int, capacity: int) -> EntryOutcome {
    let size = h.partition_entry_size as int;
    let start = i * size;
    let first = spec_le_u64(table, start + 32);
    let last = spec_le_u64(table, start + 40);
    let count = last - first + 1;
    if entry_blank(table, start) {
        EntryOutcome::Skipped
    } else if first > last || first < h.first_usable_lba || last > h.last_usable_lba {
        EntryOutcome::Noted(Diagnostic::GptRangeInvalid { index: i as u32 })
    } else if count > u64::MAX || first * sector > u64::MAX || count * sector > u64::MAX || first * sector
        + count * sector > u64::MAX {
        EntryOutcome::Failed
    } else if first * sector + count * sector > capacity {
        EntryOutcome::Noted(Diagnostic::RangeOutOfBounds { index: i as u8 })
    } else {
        EntryOutcome::Found(
            PartitionCandidate {
                index: i as u8,
                range: ByteRange { offset: (first * sector) as u64, length: (count * sector) as u64 },
                type_code: GPT_TYPE_CODE,
                bootable: false,
            },
        )
    }
}

/// The partitions the first `k` entries yield, in table order.
pub open spec fn gpt_partitions(table: Seq<u8>, h: GptHeader, k: int, sector: int, capacity: int) -> Seq<
    PartitionCandidate,
>
    decreases k,
{
    if k <= 0 {
        Seq::empty()
    } else {
        let prev = gpt_partitions(table, h, k - 1, sector, capacity);
        match gpt_outcome(table, h, k - 1, sector, capacity) {
            EntryOutcome::Found(p) => prev.push(p),
            _ => prev,
        }
    }
}

/// The diagnostics the first `k` entries yield, in table order.
pub open spec fn gpt_diagnostics(table: Seq<u8>, h: GptHeader, k: int, sector: int, capacity: int) -> Seq<
    Diagnostic,
>
    decreases k,
{
    if k <= 0 {
        Seq::empty()
    } else {
        let prev = gpt_diagnostics(table, h, k - 1, sector, capacity);
        match gpt_outcome(table, h, k - 1, sector, capacity) {
            EntryOutcome::Noted(d) => prev.push(d),
            _ => prev,
        }
    }
}

/// Works out what entry `index` of `table` contributes.
fn gpt_entry_outcome(table: &[u8], header: &GptHeader, index: usize, ss: u64, capacity: u64) -> (r: RecoveryResult<EntryOutcome>)
    requires
        index < header.partition_entry_count,
        header.partition_entry_size >= PARTITION_ENTRY_MIN_SIZE,
        table@.len() == header.partition_entry_count * header.partition_entry_size,
    ensures
        match r {
            Ok(o) => o == gpt_outcome(table@, *header, index as int, ss as int, capacity as int) && !(o is Failed),
            Err(_) => gpt_outcome(table@, *header, index as int, ss as int, capacity as int) is Failed,
        },
{
    let entry_size = header.partition_entry_size as usize;
    let tlen = table.len();
    proof {
        let n = header.partition_entry_count as int;
        let e = entry_size as int;
        assert((index + 1) * e <= n * e) by (nonlinear_arith)
            requires
                index < n,
                e >= 0,
        ;
        assert(index * e + e == (index + 1) * e) by (nonlinear_arith);
        assert(index * e + e <= tlen);
    }
    let start = index * entry_size;
    if all_zero(table, start, start + 16) {
        return Ok(EntryOutcome::Skipped);
    }
    let first_lba = le_u64(table, start + 32);
    let last_lba = le_u64(table, start + 40);
    if first_lba > last_lba || first_lba < header.first_usable_lba || last_lba > header.last_usable_lba {
        return Ok(EntryOutcome::Noted(Diagnostic::GptRangeInvalid { index: index as u32 }));
    }
    let sector_count = match (last_lba - first_lba).checked_add(1) {
        Some(v) => v,
        None => return Err(RecoveryError::RangeOverflow),
    };
    let offset = match first_lba.checked_mul(ss) {
        Some(v) => v,
        None => return Err(RecoveryError::RangeOverflow),
    };
    let length = match sector_count.checked_mul(ss) {
        Some(v) => v,
        None => return Err(RecoveryError::RangeOverflow),
    };
    let range = ByteRange::new(offset, length)?;
    if range.validate_within(capacity).is_err() {
        return Ok(EntryOutcome::Noted(Diagnostic::RangeOutOfBounds { index: index as u8 }));
    }
    Ok(EntryOutcome::Found(PartitionCandidate { index: index as u8, range, type_code: GPT_TYPE_CODE, bootable: false }))
}

/// Turns an entry array into partitions: empty entries are skipped, entries
/// outside the usable range or the source are reported, and an entry whose
/// byte range overflows fails the table.
fn parse_table<D: BlockDevice>(device: &D, geometry: DiskGeometry, header: &GptHeader, table: &[u8]) -> (r:
    RecoveryResult<DiscoveryResult>)
    requires
        geometry.logical_sector_size > 0,
        header.partition_entry_size >= PARTITION_ENTRY_MIN_SIZE,
    ensures
        r matches Ok(res) ==> {
            let cap = device.contents().len() as int;
            let ss = geometry.logical_sector_size as int;
            let n = header.partition_entry_count as int;
            &&& gpt_geometry_ok(*header, cap / ss)
            &&& table@.len() == header.partition_entry_count * header.partition_entry_size
            &&& res.partitions@ == gpt_partitions(table@, *header, n, ss, cap)
            &&& res.diagnostics@ == gpt_diagnostics(table@, *header, n, ss, cap)
            &&& forall|i: int| 0 <= i < n ==> !(#[trigger] gpt_outcome(table@, *header, i, ss, cap) is Failed)
        },
        !gpt_geometry_ok(*header, (device.contents().len() as int) / (geometry.logical_sector_size as int)) ==> r is Err,
        table@.len() == header.partition_entry_count * header.partition_entry_size && header.partition_entry_count
            * header.partition_entry_size <= MAX_TABLE_BYTES && gpt_entries_ok(
            table@,
            *header,
            geometry.logical_sector_size as int,
            device.contents().len() as int,
        ) ==> r is Ok,
{
    let capacity = device.capacity();
    let ghost all_fit = forall|i: int|
        0 <= i < header.partition_entry_count ==> !(#[trigger] gpt_outcome(
            table@,
            *header,
            i,
            geometry.logical_sector_size as int,
            device.contents().len() as int,
        ) is Failed);
    let ss = geometry.logical_sector_size;
    let sectors = capacity / ss;
    if header.current_lba >= sectors || header.backup_lba >= sectors || header.current_lba == header.backup_lba
        || header.first_usable_lba > header.last_usable_lba || header.last_usable_lba >= sectors {
        return Err(io_error("invalid GPT header geometry"));
    }
    let expected = table_bytes(header)?;
    if table.len() as u64 != expected {
        return Err(io_error("GPT table length mismatch"));
    }
    let mut result = DiscoveryResult::default();
    let count = header.partition_entry_count as usize;
    let mut index: usize = 0;
    while index < count
        invariant
            index <= count,
            count == header.partition_entry_count,
            header.partition_entry_size >= PARTITION_ENTRY_MIN_SIZE,
            table@.len() == header.partition_entry_count * header.partition_entry_size,
            capacity == device.contents().len(),
            ss == geometry.logical_sector_size,
            result.partitions@ == gpt_partitions(table@, *header, index as int, ss as int, capacity as int),
            result.diagnostics@ == gpt_diagnostics(table@, *header, index as int, ss as int, capacity as int),
            forall|i: int| 0 <= i < index ==> !(#[trigger] gpt_outcome(table@, *header, i, ss as int, capacity as int) is Failed),
            all_fit == forall|i: int|
                0 <= i < header.partition_entry_count ==> !(#[trigger] gpt_outcome(
                    table@,
                    *header,
                    i,
                    geometry.logical_sector_size as int,
                    device.contents().len() as int,
                ) is Failed),
        decreases count - index,
    {
        match gpt_entry_outcome(table, header, index, ss, capacity)? {
            EntryOutcome::Noted(d) => {
                result.diagnostics.push(d);
            },
            EntryOutcome::Found(p) => {
                result.partitions.push(p);
            },
            _ => {},
        }
        index = index + 1;
    }
    Ok(result)
}

/// Whether `res` is what the table whose header sits in sector `lba` of
/// `contents` describes: the header is valid and says it lies there, its
/// entry array matches the header's CRC, and the partitions and diagnostics
/// are those of the array's entries, in order.
pub open spec fn gpt_discovered(contents: Seq<u8>, ss: int, lba: int, res: DiscoveryResult) -> bool {
    let sector = contents.subrange(lba * ss, lba * ss + ss);
    let h = gpt_header_of(sector);
    let n = h.partition_entry_count as int;
    let start = h.partition_entries_lba * ss;
    let table = contents.subrange(start, start + n * h.partition_entry_size);
    let cap = contents.len() as int;
    &&& gpt_header_valid(sector)
    &&& h.current_lba == lba
    &&& gpt_geometry_ok(h, cap / ss)
    &&& crc32_of(table) == h.partition_entries_crc32
    &&& res.partitions@ == gpt_partitions(table, h, n, ss, cap)
    &&& res.diagnostics@ == gpt_diagnostics(table, h, n, ss, cap)
}

/// The sector whose header a reader of the table uses: 1 when a valid
/// primary header lies there, else the last sector, where the backup lies.
pub open spec fn gpt_lba(contents: Seq<u8>, ss: int) -> int {
    if gpt_header_at(contents, ss, 1) {
        1
    } else {
        contents.len() as int / ss - 1
    }
}

/// Reads the GUID partition table: the primary header in sector 1, or the
/// backup in the last sector when the primary does not read; then its
/// entry array, checked against the header's CRC.
pub fn discover_gpt<D: BlockDevice>(device: &D, geometry: DiskGeometry) -> (r: RecoveryResult<DiscoveryResult>)
    ensures
        geometry.logical_sector_size == 0 || (device.contents().len() as int) % (geometry.logical_sector_size as int)
            != 0 ==> r is Err,
        geometry.logical_sector_size > 0 && (device.contents().len() as int) / (geometry.logical_sector_size as int) < 2
            ==> r is Err,
        r matches Ok(res) ==> {
            let ss = geometry.logical_sector_size as int;
            let last = (device.contents().len() as int) / ss - 1;
            ||| gpt_discovered(device.contents(), ss, 1, res)
            ||| gpt_discovered(device.contents(), ss, last, res)
        },
        ({
            let ss = geometry.logical_sector_size as int;
            let last = (device.contents().len() as int) / ss - 1;
            &&& readable(device)
            &&& ss > 0 && (device.contents().len() as int) % ss == 0 && last >= 1
            &&& gpt_usable(device.contents(), ss, 1) || (!gpt_header_at(device.contents(), ss, 1) && gpt_usable(
                device.contents(),
                ss,
                last,
            ))
        }) ==> r is Ok,
        readable(device) ==> (r matches Ok(res) ==> {
            let ss = geometry.logical_sector_size as int;
            let lba = gpt_lba(device.contents(), ss);
            &&& gpt_usable(device.contents(), ss, lba)
            &&& gpt_discovered(device.contents(), ss, lba, res)
        }),
{
    let capacity = device.capacity();
    let ss = geometry.logical_sector_size;
    if ss == 0 || capacity % ss != 0 {
        return Err(io_error("device capacity is not aligned to GPT logical sector size"));
    }
    let sectors = capacity / ss;
    if sectors < 2 {
        return Err(io_error("device too small for GPT"));
    }
    let (header, lba) = match read_header_at(device, geometry, 1) {
        Ok(h) => (h, 1u64),
        Err(_) => match read_header_at(device, geometry, sectors - 1) {
            Ok(h) => (h, sectors - 1),
            Err(_) => return Err(io_error("neither the primary nor the backup GPT header is valid")),
        },
    };
    let table = load_table(device, geometry, &header)?;
    let result = parse_table(device, geometry, &header, table.as_slice())?;
    proof {
        assert(gpt_discovered(device.contents(), ss as int, lba as int, result));
    }
    Ok(result)
}

} // verus!
