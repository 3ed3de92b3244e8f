use data_recovery::device::MemoryDevice;
use data_recovery::partition::gpt::{discover_gpt, parse_gpt_header};
use data_recovery::partition::{
    detect_overlaps, discover_mbr, Diagnostic, DiscoveryResult, DiskGeometry, PartitionCandidate,
};
use data_recovery::probe::{probe, FilesystemKind};
use data_recovery::range::ByteRange;

fn exfat() -> Vec<u8> {
    let mut b = vec![0u8; 512];
    b[3..11].copy_from_slice(b"EXFAT   ");
    b[80..84].copy_from_slice(&24u32.to_le_bytes());
    b[84..88].copy_from_slice(&128u32.to_le_bytes());
    b[88..92].copy_from_slice(&256u32.to_le_bytes());
    b[92..96].copy_from_slice(&100u32.to_le_bytes());
    b[96..100].copy_from_slice(&2u32.to_le_bytes());
    b[108] = 9;
    b[109] = 3;
    b[510] = 0x55;
    b[511] = 0xAA;
    b
}

fn fat32() -> Vec<u8> {
    let mut b = vec![0u8; 512];
    b[11..13].copy_from_slice(&512u16.to_le_bytes());
    b[13] = 1;
    b[14..16].copy_from_slice(&32u16.to_le_bytes());
    b[16] = 2;
    b[32..36].copy_from_slice(&200_000u32.to_le_bytes());
    b[36..40].copy_from_slice(&1000u32.to_le_bytes());
    b[44..48].copy_from_slice(&2u32.to_le_bytes());
    b[510] = 0x55;
    b[511] = 0xAA;
    b
}

fn header_bytes(current: u64, backup: u64) -> Vec<u8> {
    let mut b = vec![0u8; 512];
    b[..8].copy_from_slice(b"EFI PART");
    b[12..16].copy_from_slice(&(92u32).to_le_bytes());
    b[24..32].copy_from_slice(&current.to_le_bytes());
    b[32..40].copy_from_slice(&backup.to_le_bytes());
    b[40..48].copy_from_slice(&(34u64).to_le_bytes());
    b[48..56].copy_from_slice(&(98u64).to_le_bytes());
    b[72..80].copy_from_slice(&(2u64).to_le_bytes());
    b[80..84].copy_from_slice(&(4u32).to_le_bytes());
    b[84..88].copy_from_slice(&(128u32).to_le_bytes());
    let crc = crc32fast::hash(&b[..92]);
    b[16..20].copy_from_slice(&crc.to_le_bytes());
    b
}

/// A 100-sector disk with a GPT describing one partition at sectors 40
/// to 49, and a second entry outside the usable area.
fn gpt_disk() -> Vec<u8> {
    let mut disk = vec![0u8; 100 * 512];
    let mut table = vec![0u8; 4 * 128];
    table[0] = 0xAF;
    table[32..40].copy_from_slice(&40u64.to_le_bytes());
    table[40..48].copy_from_slice(&49u64.to_le_bytes());
    table[128] = 0xAF;
    table[128 + 32..128 + 40].copy_from_slice(&10u64.to_le_bytes());
    table[128 + 40..128 + 48].copy_from_slice(&12u64.to_le_bytes());
    let mut header = header_bytes(1, 99);
    header[88..92].copy_from_slice(&crc32fast::hash(&table).to_le_bytes());
    header[16..20].copy_from_slice(&[0; 4]);
    let crc = crc32fast::hash(&header[..92]);
    header[16..20].copy_from_slice(&crc.to_le_bytes());
    disk[512..1024].copy_from_slice(&header);
    disk[1024..1024 + table.len()].copy_from_slice(&table);
    disk
}

fn image_with_entry(start: u32, count: u32) -> Vec<u8> {
    let mut image = vec![0u8; 512 * 32];
    image[510] = 0x55;
    image[511] = 0xAA;
    let o = 446;
    image[o + 4] = 0x0C;
    image[o + 8..o + 12].copy_from_slice(&start.to_le_bytes());
    image[o + 12..o + 16].copy_from_slice(&count.to_le_bytes());
    image
}

fn partition(index: u8, offset: u64, length: u64) -> PartitionCandidate {
    PartitionCandidate { index, range: ByteRange::new(offset, length).unwrap(), type_code: 0x0C, bootable: false }
}

#[test]
fn detects_exfat() {
    let r = probe(&MemoryDevice::new(exfat()), ByteRange::new(0, 512).unwrap()).unwrap();
    assert_eq!(r.kind, FilesystemKind::ExFat);
}

#[test]
fn rejects_exfat_nonzero_reserved_bytes() {
    let mut b = exfat();
    b[11] = 1;
    let r = probe(&MemoryDevice::new(b), ByteRange::new(0, 512).unwrap()).unwrap();
    assert_eq!(r.kind, FilesystemKind::Unknown);
}

#[test]
fn detects_fat32_without_cosmetic_label() {
    let r = probe(&MemoryDevice::new(fat32()), ByteRange::new(0, 512).unwrap()).unwrap();
    assert_eq!(r.kind, FilesystemKind::Fat32);
}

#[test]
fn rejects_small_fat_variant() {
    let mut b = fat32();
    b[32..36].copy_from_slice(&1000u32.to_le_bytes());
    let r = probe(&MemoryDevice::new(b), ByteRange::new(0, 512).unwrap()).unwrap();
    assert_eq!(r.kind, FilesystemKind::Unknown);
}

#[test]
fn probing_a_range_shorter_than_a_boot_sector_fails() {
    assert!(probe(&MemoryDevice::new(fat32()), ByteRange::new(0, 256).unwrap()).is_err());
    assert!(probe(&MemoryDevice::new(fat32()), ByteRange::new(256, 512).unwrap()).is_err());
}

#[test]
fn parses_crc_valid_header() {
    let b = header_bytes(1, 99);
    assert_eq!(parse_gpt_header(&b).unwrap().partition_entry_count, 4);
}

#[test]
fn rejects_crc_mismatch() {
    let mut b = header_bytes(1, 99);
    b[24] ^= 1;
    assert!(parse_gpt_header(&b).is_err());
}

#[test]
fn accepts_backup_header_direction() {
    let b = header_bytes(99, 1);
    let h = parse_gpt_header(&b).unwrap();
    assert_eq!(h.current_lba, 99);
    assert_eq!(h.backup_lba, 1);
}

#[test]
fn rejects_short_header() {
    assert!(parse_gpt_header(&[0u8; 16]).is_err());
}

#[test]
fn discovers_a_gpt_partition_and_notes_an_invalid_one() {
    let device = MemoryDevice::new(gpt_disk());
    let result = discover_gpt(&device, DiskGeometry::new(512).unwrap()).unwrap();
    assert_eq!(result.partitions.len(), 1);
    assert_eq!(result.partitions[0].range.offset, 40 * 512);
    assert_eq!(result.partitions[0].range.length, 10 * 512);
    assert_eq!(result.diagnostics, vec![Diagnostic::GptRangeInvalid { index: 1 }]);
}

#[test]
fn a_corrupted_partition_array_is_refused() {
    let mut disk = gpt_disk();
    disk[1024 + 32] ^= 1;
    let device = MemoryDevice::new(disk);
    assert!(discover_gpt(&device, DiskGeometry::new(512).unwrap()).is_err());
}

#[test]
fn gpt_needs_an_aligned_source_of_two_sectors() {
    assert!(discover_gpt(&MemoryDevice::new(vec![0u8; 1000]), DiskGeometry::new(512).unwrap()).is_err());
    assert!(discover_gpt(&MemoryDevice::new(vec![0u8; 512]), DiskGeometry::new(512).unwrap()).is_err());
    assert!(DiskGeometry::new(256).is_err());
}

#[test]
fn discovers_valid_partition() {
    let d = MemoryDevice::new(image_with_entry(1, 4));
    let r = discover_mbr(&d, DiskGeometry::new(512).unwrap()).unwrap();
    assert_eq!(r.partitions.len(), 1);
    assert_eq!(r.partitions[0].range.offset, 512);
    assert_eq!(r.partitions[0].range.length, 2048);
}

#[test]
fn reports_invalid_signature() {
    let d = MemoryDevice::new(vec![0u8; 512]);
    let r = discover_mbr(&d, DiskGeometry::new(512).unwrap()).unwrap();
    assert!(matches!(r.diagnostics.as_slice(), [Diagnostic::InvalidMbrSignature]));
}

#[test]
fn rejects_partition_outside_source() {
    let d = MemoryDevice::new(image_with_entry(30, 8));
    let r = discover_mbr(&d, DiskGeometry::new(512).unwrap()).unwrap();
    assert!(r.partitions.is_empty());
    assert!(matches!(r.diagnostics[0], Diagnostic::RangeOutOfBounds { .. }));
}

#[test]
fn a_source_smaller_than_an_mbr_fails() {
    let d = MemoryDevice::new(vec![0u8; 100]);
    assert!(discover_mbr(&d, DiskGeometry::new(512).unwrap()).is_err());
}

#[test]
fn overlapping_partitions_are_reported_in_order() {
    let parts = vec![partition(1, 4096, 1024), partition(0, 0, 2048), partition(2, 1024, 512)];
    let mut result = DiscoveryResult { partitions: parts.clone(), diagnostics: vec![Diagnostic::InvalidMbrSignature] };
    detect_overlaps(&mut result);
    assert_eq!(result.partitions, parts);
    assert_eq!(result.diagnostics, vec![Diagnostic::InvalidMbrSignature, Diagnostic::Overlap { left: 0, right: 2 }]);
}
