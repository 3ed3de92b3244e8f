use data_recovery::candidate::{
    CancellationToken, CandidateId, Completeness, Confidence, Evidence, FileCandidate, Origin, Validation,
};
use data_recovery::device::MemoryDevice;
use data_recovery::engine::{
    completeness_label, confidence_label, discover_partitions, origin_label, scan_device, scan_exfat,
    validation_label, view,
};
use data_recovery::range::{ByteRange, Extent};

const SECTOR: usize = 512;
const FAT_SECTOR: usize = 8;
const HEAP_SECTOR: usize = 32;
const CLUSTER_COUNT: u32 = 64;
const ROOT_CLUSTER: u32 = 2;
const BITMAP_CLUSTER: u32 = 3;
const TOTAL_SECTORS: usize = HEAP_SECTOR + CLUSTER_COUNT as usize;

fn link(b: &mut [u8], cluster: u32, next: u32) {
    let off = FAT_SECTOR * SECTOR + cluster as usize * 4;
    b[off..off + 4].copy_from_slice(&next.to_le_bytes());
}

fn cluster_at(cluster: u32) -> usize {
    HEAP_SECTOR * SECTOR + (cluster as usize - 2) * SECTOR
}

fn set_checksum(entries: &[[u8; 32]]) -> u16 {
    let mut sum: u16 = 0;
    for (entry_index, entry) in entries.iter().enumerate() {
        for (byte_index, byte) in entry.iter().enumerate() {
            if entry_index == 0 && (byte_index == 2 || byte_index == 3) {
                continue;
            }
            sum = sum.rotate_right(1).wrapping_add(u16::from(*byte));
        }
    }
    sum
}

fn entry_set(name: &str, cluster: u32, size: u64, deleted: bool) -> Vec<[u8; 32]> {
    let units: Vec<u16> = name.encode_utf16().collect();
    let clear = if deleted { 0x80 } else { 0 };
    let mut file = [0u8; 32];
    file[0] = 0x85 & !clear;
    file[1] = 2;
    let mut stream = [0u8; 32];
    stream[0] = 0xC0 & !clear;
    stream[1] = 0x02;
    stream[3] = units.len() as u8;
    stream[8..16].copy_from_slice(&size.to_le_bytes());
    stream[20..24].copy_from_slice(&cluster.to_le_bytes());
    stream[24..32].copy_from_slice(&size.to_le_bytes());
    let mut name_entry = [0u8; 32];
    name_entry[0] = 0xC1 & !clear;
    for (i, unit) in units.iter().enumerate() {
        name_entry[2 + i * 2..4 + i * 2].copy_from_slice(&unit.to_le_bytes());
    }
    let mut set = vec![file, stream, name_entry];
    let sum = set_checksum(&set);
    set[0][2..4].copy_from_slice(&sum.to_le_bytes());
    set
}

/// An exFAT volume holding one live and one deleted file.
fn exfat_volume() -> Vec<u8> {
    let mut b = vec![0u8; TOTAL_SECTORS * SECTOR];
    b[3..11].copy_from_slice(b"EXFAT   ");
    b[72..80].copy_from_slice(&(TOTAL_SECTORS as u64).to_le_bytes());
    b[80..84].copy_from_slice(&(FAT_SECTOR as u32).to_le_bytes());
    b[84..88].copy_from_slice(&8u32.to_le_bytes());
    b[88..92].copy_from_slice(&(HEAP_SECTOR as u32).to_le_bytes());
    b[92..96].copy_from_slice(&CLUSTER_COUNT.to_le_bytes());
    b[96..100].copy_from_slice(&ROOT_CLUSTER.to_le_bytes());
    b[108] = 9;
    b[109] = 0;
    b[110] = 1;
    b[510] = 0x55;
    b[511] = 0xAA;
    link(&mut b, ROOT_CLUSTER, 0xFFFF_FFFF);
    link(&mut b, BITMAP_CLUSTER, 0xFFFF_FFFF);
    let mut slot = 0;
    for set in [entry_set("live.txt", 5, 100, false), entry_set("gone.txt", 7, 100, true)] {
        for e in set {
            let at = cluster_at(ROOT_CLUSTER) + slot * 32;
            b[at..at + 32].copy_from_slice(&e);
            slot += 1;
        }
    }
    b
}

fn candidate() -> FileCandidate {
    FileCandidate {
        id: CandidateId::new("c-1"),
        name: "photo.jpg".to_string(),
        path: vec!["DCIM".to_string(), "100".to_string()],
        origin: Origin::DeletedFilesystem,
        extents: vec![
            Extent::new(ByteRange::new(0, 10).unwrap(), 0).unwrap(),
            Extent::new(ByteRange::new(100, 5).unwrap(), 10).unwrap(),
        ],
        declared_size: 20,
        completeness: Completeness::Partial,
        validation: Validation::Valid,
        evidence: vec![Evidence::supporting("entry set intact"), Evidence::detracting("tail missing")],
    }
}

#[test]
fn labels_cover_every_variant() {
    for c in [Confidence::High, Confidence::Medium, Confidence::Low, Confidence::Unknown] {
        assert!(!confidence_label(c).is_empty());
    }
    for v in [
        Validation::Valid,
        Validation::PartiallyValid,
        Validation::Invalid,
        Validation::Indeterminate,
        Validation::NotAttempted,
    ] {
        assert!(!validation_label(v).is_empty());
    }
    for c in [Completeness::Complete, Completeness::Partial, Completeness::MetadataOnly] {
        assert!(!completeness_label(c).is_empty());
    }
    for o in [Origin::ActiveFilesystem, Origin::DeletedFilesystem, Origin::Carved] {
        assert!(!origin_label(o).is_empty());
    }
}

#[test]
fn labels_use_the_words_the_interface_shows() {
    assert_eq!(confidence_label(Confidence::High), "high");
    assert_eq!(validation_label(Validation::NotAttempted), "unchecked");
    assert_eq!(completeness_label(Completeness::MetadataOnly), "metadata only");
    assert_eq!(origin_label(Origin::DeletedFilesystem), "deleted record");
}

#[test]
fn a_view_carries_the_classification_and_its_reasons() {
    let v = view(&candidate());
    assert_eq!(v.id, "c-1");
    assert_eq!(v.name, "photo.jpg");
    assert_eq!(v.path, "DCIM/100/photo.jpg");
    assert_eq!(v.origin, "deleted record");
    assert_eq!(v.size, 20);
    assert_eq!(v.recovered_size, 15);
    assert_eq!(v.confidence, "low");
    assert_eq!(v.validation, "valid");
    assert_eq!(v.completeness, "partial");
    assert_eq!(v.evidence.len(), 2);
    assert!(v.evidence[0].supporting);
    assert_eq!(v.evidence[1].detail, "tail missing");
}

#[test]
fn a_source_without_a_table_is_one_volume() {
    let device = MemoryDevice::new(vec![0u8; 4096]);
    let mut diagnostics = Vec::new();
    let ranges = discover_partitions(&device, &mut diagnostics);
    assert_eq!(ranges, vec![ByteRange::new(0, 4096).unwrap()]);
    assert_eq!(diagnostics.len(), 1);
}

#[test]
fn an_mbr_partition_is_used_as_a_volume() {
    let mut disk = vec![0u8; 512 * 32];
    disk[510] = 0x55;
    disk[511] = 0xAA;
    disk[446 + 4] = 0x0C;
    disk[446 + 8..446 + 12].copy_from_slice(&1u32.to_le_bytes());
    disk[446 + 12..446 + 16].copy_from_slice(&4u32.to_le_bytes());
    let device = MemoryDevice::new(disk);
    let mut diagnostics = Vec::new();
    let ranges = discover_partitions(&device, &mut diagnostics);
    assert_eq!(ranges, vec![ByteRange::new(512, 2048).unwrap()]);
    assert!(diagnostics.is_empty());
}

#[test]
fn lists_live_and_deleted_exfat_files() {
    let bytes = exfat_volume();
    let device = MemoryDevice::new(bytes.clone());
    let mut diagnostics = Vec::new();
    let found = scan_exfat(&device, ByteRange::new(0, bytes.len() as u64).unwrap(), &mut diagnostics);
    assert_eq!(found.len(), 2);
    assert_eq!(found[0].id.0, "exfat-0");
    assert_eq!(found[0].name, "live.txt");
    assert_eq!(found[0].origin, Origin::ActiveFilesystem);
    assert_eq!(found[1].id.0, "exfat-del-1");
    assert_eq!(found[1].name, "gone.txt");
    assert_eq!(found[1].origin, Origin::DeletedFilesystem);
    assert!(found[1].evidence.iter().all(|e| e.supporting));
    assert!(diagnostics.is_empty());
}

#[test]
fn a_non_exfat_range_yields_no_files() {
    let device = MemoryDevice::new(vec![0u8; 4096]);
    let mut diagnostics = Vec::new();
    assert!(scan_exfat(&device, ByteRange::new(0, 4096).unwrap(), &mut diagnostics).is_empty());
    assert!(diagnostics.is_empty());
}

#[test]
fn scanning_a_volume_image_reports_its_filesystem_and_files() {
    let bytes = exfat_volume();
    let device = MemoryDevice::new(bytes.clone());
    let result = scan_device(&device, "volume.img", false, &CancellationToken::new());
    assert_eq!(result.source, "volume.img");
    assert_eq!(result.capacity, bytes.len() as u64);
    assert_eq!(result.partitions.len(), 1);
    assert_eq!(result.partitions[0].filesystem, "exFAT");
    assert_eq!(result.candidates.len(), 2);
}

#[test]
fn scanning_junk_finds_nothing_and_says_why() {
    let device = MemoryDevice::new(b"this is not a disk image".to_vec());
    let result = scan_device(&device, "notes.txt", true, &CancellationToken::new());
    assert!(result.candidates.is_empty());
    assert_eq!(result.partitions.len(), 1);
    assert_eq!(result.partitions[0].filesystem, "unrecognised");
    assert!(result.diagnostics.iter().any(|d| d.contains("Partition 0")));
}
