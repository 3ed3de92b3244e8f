//! exFAT boot region parsing and geometry validation.

use vstd::prelude::*;
use crate::bytes::{all_zero, bytes_match_at, le_u16, le_u32, le_u64, spec_le_u16, spec_le_u32, spec_le_u64};
use crate::device::{read_exact, readable, span, BlockDevice};
use crate::range::{io_error, ByteRange, RecoveryError, RecoveryResult};

verus! {

/// Smallest accepted bytes-per-sector shift (2^9 = 512).
pub const MIN_SECTOR_SHIFT: u8 = 9;
/// Largest accepted bytes-per-sector shift (2^12 = 4096).
pub const MAX_SECTOR_SHIFT: u8 = 12;
/// A cluster may not exceed 32MB, per the exFAT specification.
pub const MAX_CLUSTER_BYTES: u64 = 32 * 1024 * 1024;
/// exFAT reserves the two lowest cluster indices.
pub const FIRST_CLUSTER: u32 = 2;

/// Validated exFAT volume geometry.
#[derive(Clone, Debug, PartialEq, Eq)]
pub struct ExfatVolume {
    pub bytes_per_sector: u64,
    pub sectors_per_cluster: u64,
    pub fat_offset_sectors: u64,
    pub fat_length_sectors: u64,
    pub cluster_heap_offset_sectors: u64,
    pub cluster_count: u32,
    pub root_directory_cluster: u32,
    pub volume_length_sectors: u64,
    pub fat_count: u8,
    /// True when the volume is flagged dirty, which is evidence that metadata
    /// may be inconsistent.
    pub volume_dirty: bool,
}

/// Two to the power `e`.
pub open spec fn power_of_two(e: nat) -> nat
    decreases e,
{
    if e == 0 {
        1
    } else {
        2 * power_of_two((e - 1) as nat)
    }
}

/// `2^e`, for the small shifts a boot sector may carry.
pub fn shift_value(e: u8) -> (r: u64)
    requires
        e <= 25,
    ensures
        r == power_of_two(e as nat),
{
    let mut r: u64 = 1;
    let mut k: u8 = 0;
    while k < e
        invariant
            k <= e <= 25,
            r == power_of_two(k as nat),
        decreases e - k,
    {
        proof {
            lemma_power_of_two_monotone(k as nat + 1, 25);
            reveal_with_fuel(power_of_two, 26);
            assert(power_of_two(25) == 33554432);
        }
        r = r * 2;
        k = k + 1;
    }
    r
}

/// Powers of two grow with their exponent.
pub proof fn lemma_power_of_two_monotone(a: nat, b: nat)
    requires
        a <= b,
    ensures
        power_of_two(a) <= power_of_two(b),
        power_of_two(a) >= 1,
    decreases b,
{
    if b > 0 {
        if a < b {
            lemma_power_of_two_monotone(a, (b - 1) as nat);
        }
        lemma_power_of_two_monotone(0, (b - 1) as nat);
    }
}

/// A valid boot sector describes clusters of at least one byte.
pub proof fn lemma_valid_cluster_size(b: Seq<u8>, range_length: int)
    requires
        exfat_boot_valid(b, range_length),
    ensures
        exfat_volume_of(b).bytes_per_sector * exfat_volume_of(b).sectors_per_cluster > 0,
{
    let bps = power_of_two(b[108] as nat);
    let spc = power_of_two(b[109] as nat);
    lemma_power_of_two_monotone(0, b[108] as nat);
    lemma_power_of_two_monotone(0, b[109] as nat);
    assert(bps <= bps * spc) by (nonlinear_arith)
        requires
            spc >= 1,
    ;
    assert(spc <= bps * spc) by (nonlinear_arith)
        requires
            bps >= 1,
    ;
    assert(bps * spc > 0) by (nonlinear_arith)
        requires
            bps >= 1,
            spc >= 1,
    ;
}

/// The OEM name an exFAT boot sector carries: `"EXFAT   "`.
pub open spec fn exfat_oem() -> Seq<u8> {
    seq![0x45u8, 0x58, 0x46, 0x41, 0x54, 0x20, 0x20, 0x20]
}

/// Whether a 512-byte boot sector describes an exFAT volume that fits in
/// `range_length` bytes.
pub open spec fn exfat_boot_valid(b: Seq<u8>, range_length: int) -> bool {
    let volume_length = spec_le_u64(b, 72);
    let fat_offset = spec_le_u32(b, 80);
    let fat_length = spec_le_u32(b, 84);
    let heap = spec_le_u32(b, 88);
    let clusters = spec_le_u32(b, 92);
    let root = spec_le_u32(b, 96);
    let sector_shift = b[108];
    let cluster_shift = b[109];
    let fats = b[110];
    let bps = power_of_two(sector_shift as nat);
    let spc = power_of_two(cluster_shift as nat);
    &&& b.subrange(3, 11) == exfat_oem()
    &&& b[510] == 0x55 && b[511] == 0xAA
    &&& forall|i: int| 11 <= i < 64 ==> b[i] == 0
    &&& MIN_SECTOR_SHIFT <= sector_shift <= MAX_SECTOR_SHIFT
    &&& sector_shift + cluster_shift <= 25
    &&& 1 <= fats <= 2
    &&& bps * spc <= MAX_CLUSTER_BYTES
    &&& volume_length != 0 && fat_offset != 0 && fat_length != 0 && heap != 0
    &&& clusters != 0
    &&& fat_offset + fat_length * fats <= heap
    &&& heap + clusters * spc <= volume_length
    &&& FIRST_CLUSTER <= root < clusters + FIRST_CLUSTER
    &&& volume_length * bps <= range_length
}

/// The geometry a valid exFAT boot sector describes.
pub open spec fn exfat_volume_of(b: Seq<u8>) -> ExfatVolume {
    ExfatVolume {
        bytes_per_sector: power_of_two(b[108] as nat) as u64,
        sectors_per_cluster: power_of_two(b[109] as nat) as u64,
        fat_offset_sectors: spec_le_u32(b, 80) as u64,
        fat_length_sectors: spec_le_u32(b, 84) as u64,
        cluster_heap_offset_sectors: spec_le_u32(b, 88) as u64,
        cluster_count: spec_le_u32(b, 92) as u32,
        root_directory_cluster: spec_le_u32(b, 96) as u32,
        volume_length_sectors: spec_le_u64(b, 72) as u64,
        fat_count: b[110],
        volume_dirty: (spec_le_u16(b, 106) as u16) & 0x0002 != 0,
    }
}

/// Validates an exFAT boot sector read from the start of a volume of
/// `range_length` bytes.
pub fn parse_boot_sector(boot: &[u8], range_length: u64) -> (r: RecoveryResult<ExfatVolume>)
    requires
        boot@.len() == 512,
    ensures
        r is Ok <==> exfat_boot_valid(boot@, range_length as int),
        r matches Ok(v) ==> v == exfat_volume_of(boot@),
{
    let oem: [u8; 8] = [0x45, 0x58, 0x46, 0x41, 0x54, 0x20, 0x20, 0x20];
    if !bytes_match_at(boot, 3, &oem) {
        assert(boot@.subrange(3, 11) != exfat_oem()) by {
            assert(oem@ == exfat_oem());
        }
        return Err(io_error("missing exFAT OEM identifier"));
    }
    assert(oem@ == exfat_oem());
    if boot[510] != 0x55 || boot[511] != 0xAA {
        return Err(io_error("invalid exFAT boot signature"));
    }
    // Bytes 11..64 are defined as zero; a non-zero value indicates this is not
    // a genuine exFAT boot sector.
    if !all_zero(boot, 11, 64) {
        return Err(io_error("exFAT reserved boot bytes are not zero"));
    }
    let volume_length = le_u64(boot, 72);
    let fat_offset = le_u32(boot, 80) as u64;
    let fat_length = le_u32(boot, 84) as u64;
    let cluster_heap_offset = le_u32(boot, 88) as u64;
    let cluster_count = le_u32(boot, 92);
    let root_directory_cluster = le_u32(boot, 96);
    let sector_shift = boot[108];
    let cluster_shift = boot[109];
    let fat_count = boot[110];
    let volume_flags = le_u16(boot, 106);
    if sector_shift < MIN_SECTOR_SHIFT || sector_shift > MAX_SECTOR_SHIFT {
        return Err(io_error("exFAT sector shift out of range"));
    }
    // Shifts are bounded above so the shift itself cannot overflow.
    if sector_shift as u32 + cluster_shift as u32 > 25 {
        return Err(io_error("exFAT cluster shift out of range"));
    }
    if fat_count == 0 || fat_count > 2 {
        return Err(io_error("invalid exFAT FAT count"));
    }
    let bytes_per_sector = shift_value(sector_shift);
    let sectors_per_cluster = shift_value(cluster_shift);
    proof {
        lemma_power_of_two_monotone(sector_shift as nat, 12);
        lemma_power_of_two_monotone(cluster_shift as nat, 16);
        reveal_with_fuel(power_of_two, 17);
        assert(power_of_two(12) == 4096);
        assert(power_of_two(16) == 65536);
    }
    assert(bytes_per_sector * sectors_per_cluster <= 4096 * 65536) by (nonlinear_arith)
        requires
            bytes_per_sector <= 4096,
            sectors_per_cluster <= 65536,
    ;
    let cluster_bytes = bytes_per_sector * sectors_per_cluster;
    if cluster_bytes > MAX_CLUSTER_BYTES {
        return Err(io_error("exFAT cluster size exceeds 32MB"));
    }
    if volume_length == 0 || fat_offset == 0 || fat_length == 0 || cluster_heap_offset == 0 {
        return Err(io_error("exFAT geometry contains a zero required field"));
    }
    if cluster_count == 0 {
        return Err(io_error("exFAT volume declares no clusters"));
    }
    // The FAT must lie between the reserved area and the cluster heap.
    assert(fat_length * fat_count <= 0xFFFF_FFFF * 2) by (nonlinear_arith)
        requires
            fat_length <= 0xFFFF_FFFF,
            fat_count <= 2,
    ;
    let fat_end = fat_offset + fat_length * fat_count as u64;
    if fat_end > cluster_heap_offset {
        return Err(io_error("exFAT FAT region overlaps the cluster heap"));
    }
    // The heap must fit inside the declared volume.
    assert(cluster_count as u64 * sectors_per_cluster <= 0xFFFF_FFFF * 65536) by (nonlinear_arith)
        requires
            cluster_count <= 0xFFFF_FFFF,
            sectors_per_cluster <= 65536,
    ;
    let heap_end = cluster_heap_offset + cluster_count as u64 * sectors_per_cluster;
    if heap_end > volume_length {
        return Err(io_error("exFAT cluster heap extends beyond the volume"));
    }
    if root_directory_cluster < FIRST_CLUSTER || root_directory_cluster as u64 >= cluster_count as u64
        + FIRST_CLUSTER as u64 {
        return Err(io_error("exFAT root directory cluster out of range"));
    }
    // The volume must fit in the range the caller supplied.
    let declared_bytes = match volume_length.checked_mul(bytes_per_sector) {
        Some(v) => v,
        None => return Err(RecoveryError::RangeOverflow),
    };
    if declared_bytes > range_length {
        return Err(io_error("exFAT volume exceeds the supplied range"));
    }
    Ok(
        ExfatVolume {
            bytes_per_sector,
            sectors_per_cluster,
            fat_offset_sectors: fat_offset,
            fat_length_sectors: fat_length,
            cluster_heap_offset_sectors: cluster_heap_offset,
            cluster_count,
            root_directory_cluster,
            volume_length_sectors: volume_length,
            fat_count,
            // Bit 1 is VolumeDirty.
            volume_dirty: volume_flags & 0x0002 != 0,
        },
    )
}

/// Parses and validates the exFAT boot sector at the start of `range`.
pub fn parse_volume<D: BlockDevice>(device: &D, range: ByteRange) -> (r: RecoveryResult<
    ExfatVolume,
>)
    ensures
        r matches Ok(v) ==> {
            &&& range.within(device.contents().len() as int)
            &&& range.length >= 512
            &&& exfat_boot_valid(span(device, range.offset as int, 512), range.length as int)
            &&& v == exfat_volume_of(span(device, range.offset as int, 512))
        },
        !range.within(device.contents().len() as int) || range.length < 512 ==> r is Err,
        range.within(device.contents().len() as int) && range.length >= 512 && !exfat_boot_valid(
            span(device, range.offset as int, 512),
            range.length as int,
        ) ==> r is Err,
        readable(device) && range.within(device.contents().len() as int) && range.length >= 512 && exfat_boot_valid(
            span(device, range.offset as int, 512),
            range.length as int,
        ) ==> r is Ok,
{
    range.validate_within(device.capacity())?;
    if range.length < 512 {
        return Err(io_error("exFAT range smaller than a boot sector"));
    }
    let boot = read_exact(device, range.offset, 512)?;
    parse_boot_sector(boot.as_slice(), range.length)
}

impl ExfatVolume {
    /// Highest valid cluster index plus one.
    pub open spec fn spec_cluster_limit(&self) -> int {
        self.cluster_count + FIRST_CLUSTER
    }

    /// Byte offset of `cluster`'s data, for a volume starting at `start`.
    pub open spec fn spec_cluster_offset(&self, start: int, cluster: u32) -> int {
        start + (self.cluster_heap_offset_sectors + (cluster - FIRST_CLUSTER)
            * self.sectors_per_cluster) * self.bytes_per_sector
    }

    /// Byte offset of `cluster`'s entry in the first FAT.
    pub open spec fn spec_fat_entry_offset(&self, start: int, cluster: u32) -> int {
        start + self.fat_offset_sectors * self.bytes_per_sector + cluster * 4
    }

    /// Whether `cluster`'s data lies inside the volume `range`, with every
    /// offset on the way a `u64`.
    pub open spec fn cluster_in_range(&self, range: ByteRange, cluster: u32) -> bool {
        let k = (cluster - FIRST_CLUSTER) * self.sectors_per_cluster;
        let off = self.spec_cluster_offset(range.offset as int, cluster);
        let cs = self.bytes_per_sector * self.sectors_per_cluster;
        &&& FIRST_CLUSTER <= cluster < self.spec_cluster_limit()
        &&& k <= u64::MAX
        &&& self.cluster_heap_offset_sectors + k <= u64::MAX
        &&& (self.cluster_heap_offset_sectors + k) * self.bytes_per_sector <= u64::MAX
        &&& off <= u64::MAX
        &&& cs <= u64::MAX
        &&& range.spec_end() <= u64::MAX
        &&& off + cs <= range.spec_end()
    }

    /// Whether every cluster of the heap lies inside the volume `range`.
    pub open spec fn heap_in_range(&self, range: ByteRange) -> bool {
        forall|c: u32| FIRST_CLUSTER <= c < self.spec_cluster_limit() ==> #[trigger] self.cluster_in_range(range, c)
    }

    /// Bytes per cluster.
    pub fn cluster_size(&self) -> (r: RecoveryResult<u64>)
        ensures
            r matches Ok(s) ==> s == self.bytes_per_sector * self.sectors_per_cluster,
            r is Ok <==> self.bytes_per_sector * self.sectors_per_cluster <= u64::MAX,
            r matches Err(e) ==> e is RangeOverflow,
    {
        match self.bytes_per_sector.checked_mul(self.sectors_per_cluster) {
            Some(v) => Ok(v),
            None => Err(RecoveryError::RangeOverflow),
        }
    }

    /// Highest valid cluster index, exclusive.
    pub fn cluster_limit(&self) -> (r: u64)
        ensures
            r == self.spec_cluster_limit(),
    {
        self.cluster_count as u64 + FIRST_CLUSTER as u64
    }

    /// Whether `cluster` lies in the cluster heap.
    pub fn is_valid_cluster(&self, cluster: u32) -> (r: bool)
        ensures
            r == (FIRST_CLUSTER <= cluster && cluster < self.spec_cluster_limit()),
    {
        cluster >= FIRST_CLUSTER && (cluster as u64) < self.cluster_limit()
    }

    /// Byte offset of `cluster` within the source, given the volume's start.
    pub fn cluster_offset(&self, volume_start: u64, cluster: u32) -> (r: RecoveryResult<u64>)
        ensures
            r matches Ok(o) ==> FIRST_CLUSTER <= cluster < self.spec_cluster_limit() && o
                == self.spec_cluster_offset(volume_start as int, cluster) && (cluster - FIRST_CLUSTER)
                * self.sectors_per_cluster <= u64::MAX && self.cluster_heap_offset_sectors + (cluster
                - FIRST_CLUSTER) * self.sectors_per_cluster <= u64::MAX && (self.cluster_heap_offset_sectors
                + (cluster - FIRST_CLUSTER) * self.sectors_per_cluster) * self.bytes_per_sector <= u64::MAX,
            !(FIRST_CLUSTER <= cluster < self.spec_cluster_limit()) ==> r is Err,
            FIRST_CLUSTER <= cluster < self.spec_cluster_limit() && (cluster - FIRST_CLUSTER)
                * self.sectors_per_cluster <= u64::MAX && self.cluster_heap_offset_sectors + (
            cluster - FIRST_CLUSTER) * self.sectors_per_cluster <= u64::MAX && (
            self.cluster_heap_offset_sectors + (cluster - FIRST_CLUSTER) * self.sectors_per_cluster)
                * self.bytes_per_sector <= u64::MAX && self.spec_cluster_offset(
                volume_start as int,
                cluster,
            ) <= u64::MAX ==> r is Ok,
    {
        if !self.is_valid_cluster(cluster) {
            return Err(io_error("cluster outside the exFAT heap"));
        }
        let index = (cluster - FIRST_CLUSTER) as u64;
        let delta = match index.checked_mul(self.sectors_per_cluster) {
            Some(v) => v,
            None => return Err(RecoveryError::RangeOverflow),
        };
        let sector = match self.cluster_heap_offset_sectors.checked_add(delta) {
            Some(v) => v,
            None => return Err(RecoveryError::RangeOverflow),
        };
        let bytes = match sector.checked_mul(self.bytes_per_sector) {
            Some(v) => v,
            None => return Err(RecoveryError::RangeOverflow),
        };
        match volume_start.checked_add(bytes) {
            Some(v) => Ok(v),
            None => Err(RecoveryError::RangeOverflow),
        }
    }

    /// Byte offset of `cluster`'s entry in the first FAT. The entry must lie
    /// inside the declared FAT, not merely be arithmetically valid.
    pub fn fat_entry_offset(&self, volume_start: u64, cluster: u32) -> (r: RecoveryResult<u64>)
        ensures
            r matches Ok(o) ==> {
                &&& FIRST_CLUSTER <= cluster < self.spec_cluster_limit()
                &&& cluster * 4 + 4 <= self.fat_length_sectors * self.bytes_per_sector
                &&& o == self.spec_fat_entry_offset(volume_start as int, cluster)
            },
            !(FIRST_CLUSTER <= cluster < self.spec_cluster_limit()) ==> r is Err,
            cluster * 4 + 4 > self.fat_length_sectors * self.bytes_per_sector ==> r is Err,
            FIRST_CLUSTER <= cluster < self.spec_cluster_limit() && self.fat_offset_sectors
                * self.bytes_per_sector <= u64::MAX && self.fat_length_sectors
                * self.bytes_per_sector <= u64::MAX && cluster * 4 + 4
                <= self.fat_length_sectors * self.bytes_per_sector && self.spec_fat_entry_offset(
                volume_start as int,
                cluster,
            ) <= u64::MAX ==> r is Ok,
    {
        if !self.is_valid_cluster(cluster) {
            return Err(io_error("cluster outside the exFAT heap"));
        }
        let base = match self.fat_offset_sectors.checked_mul(self.bytes_per_sector) {
            Some(v) => v,
            None => return Err(RecoveryError::RangeOverflow),
        };
        let entry = cluster as u64 * 4;
        let fat_bytes = match self.fat_length_sectors.checked_mul(self.bytes_per_sector) {
            Some(v) => v,
            None => return Err(RecoveryError::RangeOverflow),
        };
        if entry + 4 > fat_bytes {
            return Err(io_error("FAT entry beyond the declared FAT length"));
        }
        match volume_start.checked_add(base) {
            Some(v) => match v.checked_add(entry) {
                Some(w) => Ok(w),
                None => Err(RecoveryError::RangeOverflow),
            },
            None => Err(RecoveryError::RangeOverflow),
        }
    }
}

} // verus!
