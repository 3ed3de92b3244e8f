//! Recognising the filesystem a partition holds from its boot sector.

use vstd::prelude::*;
use crate::bytes::{le_u16, le_u32, spec_le_u16, spec_le_u32};
use crate::device::{read_exact, readable, span, BlockDevice};
use crate::fat32::{is_pow2, pow2_u64};
use crate::range::{io_error, ByteRange, RecoveryError, RecoveryResult};

verus! {

/// The filesystems a boot sector can be recognised as.
#[derive(Clone, Copy, Debug, PartialEq, Eq)]
pub enum FilesystemKind {
    Unknown,
    Fat32,
    ExFat,
}

/// A classification with the structural evidence behind it.
#[derive(Clone, Debug, PartialEq, Eq)]
pub struct ProbeEvidence {
    pub kind: FilesystemKind,
    pub confidence: u8,
    pub notes: Vec<&'static str>,
}

/// Bytes in a boot sector.
pub const BOOT_SECTOR_LEN: usize = 512;
/// The smallest cluster count a FAT32 volume has.
pub const FAT32_MIN_CLUSTERS: u64 = 65_525;

/// Reads the 512-byte boot sector at the start of `range`.
fn read_boot<D: BlockDevice>(device: &D, range: ByteRange) -> (r: RecoveryResult<Vec<u8>>)
    ensures
        range.length < BOOT_SECTOR_LEN ==> r is Err,
        r matches Ok(b) ==> b@ == span(device, range.offset as int, BOOT_SECTOR_LEN as int),
        readable(device) && range.length >= BOOT_SECTOR_LEN && range.offset + BOOT_SECTOR_LEN <= device.contents().len()
            ==> r is Ok,
{
    if range.length < BOOT_SECTOR_LEN as u64 {
        return Err(io_error("probe range smaller than boot sector"));
    }
    read_exact(device, range.offset, BOOT_SECTOR_LEN as u64)
}

/// Whether a boot sector ends in the `0x55 0xAA` signature.
pub open spec fn boot_signature_ok(b: Seq<u8>) -> bool {
    b[510] == 0x55 && b[511] == 0xAA
}

fn valid_signature(boot: &[u8]) -> (r: bool)
    requires
        boot@.len() == BOOT_SECTOR_LEN,
    ensures
        r == boot_signature_ok(boot@),
{
    boot[510] == 0x55 && boot[511] == 0xAA
}

/// Whether `value` is a power of two in `[min, max]`.
pub fn power_of_two_in(value: u64, min: u64, max: u64) -> (r: bool)
    ensures
        r == (is_pow2(value as int) && min <= value <= max),
{
    pow2_u64(value) && min <= value && value <= max
}

/// The exFAT OEM name, `EXFAT` and three spaces.
pub open spec fn exfat_oem() -> Seq<u8> {
    seq![0x45u8, 0x58u8, 0x46u8, 0x41u8, 0x54u8, 0x20u8, 0x20u8, 0x20u8]
}

/// Whether a boot sector is a plausible exFAT main boot sector: OEM name,
/// zeroed legacy parameter block, plausible geometry and the signature.
pub open spec fn exfat_probe_ok(b: Seq<u8>) -> bool {
    let sector_shift = b[108];
    let cluster_shift = b[109];
    let cluster_count = spec_le_u32(b, 92);
    let root = spec_le_u32(b, 96);
    &&& b.subrange(3, 11) == exfat_oem()
    &&& boot_signature_ok(b)
    &&& forall|i: int| 11 <= i < 64 ==> b[i] == 0
    &&& 9 <= sector_shift <= 12
    &&& cluster_shift <= 25
    &&& spec_le_u32(b, 80) != 0 && spec_le_u32(b, 84) != 0 && spec_le_u32(b, 88) != 0 && cluster_count != 0
    &&& 2 <= root && root < (if cluster_count + 2 > u32::MAX { u32::MAX as int } else { cluster_count + 2 })
}

/// Recognises an exFAT main boot sector.
pub fn probe_exfat(boot: &[u8]) -> (r: Option<ProbeEvidence>)
    requires
        boot@.len() == BOOT_SECTOR_LEN,
    ensures
        r is Some <==> exfat_probe_ok(boot@),
        r matches Some(e) ==> e.kind == FilesystemKind::ExFat && e.confidence == 95,
{
    let oem: [u8; 8] = [0x45, 0x58, 0x46, 0x41, 0x54, 0x20, 0x20, 0x20];
    assert(oem@ == exfat_oem());
    if !crate::bytes::bytes_match_at(boot, 3, &oem) || !valid_signature(boot) {
        return None;
    }
    if !crate::bytes::all_zero(boot, 11, 64) {
        return None;
    }
    let sector_shift = boot[108];
    let cluster_shift = boot[109];
    let fat_offset = le_u32(boot, 80);
    let fat_length = le_u32(boot, 84);
    let cluster_heap_offset = le_u32(boot, 88);
    let cluster_count = le_u32(boot, 92);
    let root_cluster = le_u32(boot, 96);
    if sector_shift < 9 || sector_shift > 12 || cluster_shift > 25 {
        return None;
    }
    if fat_offset == 0 || fat_length == 0 || cluster_heap_offset == 0 || cluster_count == 0 {
        return None;
    }
    let limit = cluster_count.saturating_add(2);
    if root_cluster < 2 || root_cluster >= limit {
        return None;
    }
    Some(
        ProbeEvidence {
            kind: FilesystemKind::ExFat,
            confidence: 95,
            notes: vec!["exFAT OEM identifier", "reserved bytes", "plausible boot geometry", "boot signature"],
        },
    )
}

/// The total sector count a FAT boot sector records.
pub open spec fn fat_total_sectors(b: Seq<u8>) -> int {
    if spec_le_u16(b, 19) != 0 {
        spec_le_u16(b, 19)
    } else {
        spec_le_u32(b, 32)
    }
}

/// Whether a boot sector describes a FAT32 volume: the parameter block's
/// geometry, FAT32's fields, and a cluster count only FAT32 has, rather
/// than its cosmetic type label.
pub open spec fn fat32_probe_ok(b: Seq<u8>) -> bool {
    let bps = spec_le_u16(b, 11);
    let spc = b[13] as int;
    let reserved = spec_le_u16(b, 14);
    let fats = b[16] as int;
    let total = fat_total_sectors(b);
    let fat32 = spec_le_u32(b, 36);
    let root = spec_le_u32(b, 44);
    let data_start = reserved + fats * fat32;
    &&& boot_signature_ok(b)
    &&& is_pow2(bps) && 512 <= bps <= 4096
    &&& is_pow2(spc) && spc != 0
    &&& reserved != 0 && fats != 0 && spec_le_u16(b, 17) == 0 && spec_le_u16(b, 22) == 0 && fat32 != 0
    &&& total != 0 && root >= 2
    &&& data_start < total
    &&& (total - data_start) / spc >= FAT32_MIN_CLUSTERS
    &&& root < (total - data_start) / spc + 2
}

/// Recognises a FAT32 boot sector.
pub fn probe_fat32(boot: &[u8]) -> (r: Option<ProbeEvidence>)
    requires
        boot@.len() == BOOT_SECTOR_LEN,
    ensures
        r is Some <==> fat32_probe_ok(boot@),
        r matches Some(e) ==> e.kind == FilesystemKind::Fat32 && e.confidence == 95,
{
    if !valid_signature(boot) {
        return None;
    }
    let bytes_per_sector = le_u16(boot, 11) as u64;
    let sectors_per_cluster = boot[13] as u64;
    let reserved_sectors = le_u16(boot, 14) as u64;
    let fats = boot[16] as u64;
    let root_entry_count = le_u16(boot, 17);
    let total16 = le_u16(boot, 19) as u64;
    let total32 = le_u32(boot, 32) as u64;
    let fat16 = le_u16(boot, 22) as u64;
    let fat32 = le_u32(boot, 36) as u64;
    let root_cluster = le_u32(boot, 44) as u64;
    let total = if total16 != 0 {
        total16
    } else {
        total32
    };
    if !power_of_two_in(bytes_per_sector, 512, 4096) || !pow2_u64(sectors_per_cluster) || sectors_per_cluster == 0 {
        return None;
    }
    if reserved_sectors == 0 || fats == 0 || root_entry_count != 0 || fat16 != 0 || fat32 == 0 || total == 0
        || root_cluster < 2 {
        return None;
    }
    assert(fats * fat32 <= 255 * 0xffff_ffff) by (nonlinear_arith)
        requires
            fats <= 255,
            fat32 <= 0xffff_ffff,
    ;
    let data_start = reserved_sectors + fats * fat32;
    if data_start >= total {
        return None;
    }
    let data_sectors = total - data_start;
    let clusters = data_sectors / sectors_per_cluster;
    if clusters < FAT32_MIN_CLUSTERS || root_cluster >= clusters + 2 {
        return None;
    }
    Some(
        ProbeEvidence {
            kind: FilesystemKind::Fat32,
            confidence: 95,
            notes: vec!["FAT32 BPB geometry", "FAT32 cluster count", "root cluster", "boot signature"],
        },
    )
}

/// Classifies the filesystem at the start of `range` from its boot sector:
/// exFAT first, then FAT32, else unknown with no confidence.
pub fn probe<D: BlockDevice>(device: &D, range: ByteRange) -> (r: RecoveryResult<ProbeEvidence>)
    ensures
        !range.within(device.contents().len() as int) || range.length < BOOT_SECTOR_LEN ==> r is Err,
        r matches Ok(e) ==> {
            let boot = span(device, range.offset as int, BOOT_SECTOR_LEN as int);
            &&& exfat_probe_ok(boot) ==> e.kind == FilesystemKind::ExFat
            &&& !exfat_probe_ok(boot) && fat32_probe_ok(boot) ==> e.kind == FilesystemKind::Fat32
            &&& !exfat_probe_ok(boot) && !fat32_probe_ok(boot) ==> e.kind == FilesystemKind::Unknown
                && e.confidence == 0
        },
        readable(device) && range.within(device.contents().len() as int) && range.length >= BOOT_SECTOR_LEN ==> r is Ok,
{
    range.validate_within(device.capacity())?;
    let boot = read_boot(device, range)?;
    if let Some(evidence) = probe_exfat(boot.as_slice()) {
        return Ok(evidence);
    }
    if let Some(evidence) = probe_fat32(boot.as_slice()) {
        return Ok(evidence);
    }
    Ok(
        ProbeEvidence {
            kind: FilesystemKind::Unknown,
            confidence: 0,
            notes: vec!["no supported filesystem signature"],
        },
    )
}

} // verus!
