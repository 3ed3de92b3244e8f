use data_recovery::device::{BlockDevice, MemoryDevice};
use data_recovery::exfat::allocation::{self, ENTRY_ALLOCATION_BITMAP};
use data_recovery::exfat::bitmap::AllocationBitmap;
use data_recovery::exfat::boot::{parse_volume, ExfatVolume};
use data_recovery::exfat::deleted::{
    active_file_extents, parse_deleted_directory_entries, parse_deleted_directory_entry_set, read_deleted_file,
    DELETED_FILE, DELETED_NAME, DELETED_STREAM,
};
use data_recovery::exfat::directory::{cluster_chain, read_directory, DirectoryEntry, EntrySetError, ATTR_DIRECTORY};
use data_recovery::exfat::extents::{deleted_candidate, stream_extents, Confidence, ExtentState};
use data_recovery::range::{validate_logical_layout, ByteRange, RecoveryError, RecoveryResult};

const SECTOR: usize = 512;
const CLUSTER: usize = SECTOR;
const FAT_SECTOR: usize = 8;
const FAT_LENGTH: usize = 8;
const HEAP_SECTOR: usize = 32;
const CLUSTER_COUNT: u32 = 64;
const ROOT_CLUSTER: u32 = 2;
const BITMAP_CLUSTER: u32 = 3;
const TOTAL_SECTORS: usize = HEAP_SECTOR + CLUSTER_COUNT as usize;
const ENTRY_SIZE: usize = 32;
const TYPE_FILE: u8 = 0x85;
const TYPE_STREAM: u8 = 0xC0;
const TYPE_FILE_NAME: u8 = 0xC1;
const IN_USE_MASK: u8 = 0x80;
const NAME_CHARS_PER_ENTRY: usize = 15;

/// An exFAT image under construction.
struct Mem(Vec<u8>);

impl Mem {
    fn range(&self) -> ByteRange {
        ByteRange::new(0, self.0.len() as u64).unwrap()
    }

    fn cluster_at(&self, cluster: u32) -> usize {
        HEAP_SECTOR * SECTOR + (cluster as usize - 2) * CLUSTER
    }

    fn put_entry(&mut self, cluster: u32, slot: usize, entry: &[u8; 32]) {
        let off = self.cluster_at(cluster) + slot * 32;
        self.0[off..off + 32].copy_from_slice(entry);
    }

    fn link(&mut self, cluster: u32, next: u32) {
        let off = FAT_SECTOR * SECTOR + cluster as usize * 4;
        self.0[off..off + 4].copy_from_slice(&next.to_le_bytes());
    }

    fn allocate(&mut self, cluster: u32) {
        let index = cluster as usize - 2;
        let off = self.cluster_at(BITMAP_CLUSTER) + index / 8;
        self.0[off] |= 1 << (index % 8);
    }

    fn write_set(&mut self, slot: usize, set: &[[u8; ENTRY_SIZE]]) {
        for (i, e) in set.iter().enumerate() {
            self.put_entry(ROOT_CLUSTER, slot + i, e);
        }
    }

    fn device(&self) -> MemoryDevice {
        MemoryDevice::new(self.0.clone())
    }
}

fn image() -> Mem {
    let mut b = vec![0u8; TOTAL_SECTORS * SECTOR];
    b[3..11].copy_from_slice(b"EXFAT   ");
    b[72..80].copy_from_slice(&(TOTAL_SECTORS as u64).to_le_bytes());
    b[80..84].copy_from_slice(&(FAT_SECTOR as u32).to_le_bytes());
    b[84..88].copy_from_slice(&(FAT_LENGTH as u32).to_le_bytes());
    b[88..92].copy_from_slice(&(HEAP_SECTOR as u32).to_le_bytes());
    b[92..96].copy_from_slice(&CLUSTER_COUNT.to_le_bytes());
    b[96..100].copy_from_slice(&ROOT_CLUSTER.to_le_bytes());
    b[108] = 9;
    b[109] = 0;
    b[110] = 1;
    b[510] = 0x55;
    b[511] = 0xAA;
    let mut m = Mem(b);
    m.link(ROOT_CLUSTER, 0xFFFF_FFFF);
    m.link(BITMAP_CLUSTER, 0xFFFF_FFFF);
    m.allocate(ROOT_CLUSTER);
    m.allocate(BITMAP_CLUSTER);
    m
}

fn set_checksum(entries: &[[u8; ENTRY_SIZE]]) -> u16 {
    let mut sum: u16 = 0;
    for (entry_index, entry) in entries.iter().enumerate() {
        for (byte_index, byte) in entry.iter().enumerate() {
            if entry_index == 0 && (byte_index == 2 || byte_index == 3) {
                continue;
            }
            sum = sum.rotate_right(1);
            sum = sum.wrapping_add(u16::from(*byte));
        }
    }
    sum
}

fn entry_set(name: &str, cluster: u32, size: u64, attributes: u16, deleted: bool) -> Vec<[u8; ENTRY_SIZE]> {
    let units: Vec<u16> = name.encode_utf16().collect();
    let name_entries = units.len().div_ceil(NAME_CHARS_PER_ENTRY).max(1);
    let secondary = 1 + name_entries;
    let mut file = [0u8; ENTRY_SIZE];
    file[0] = if deleted { TYPE_FILE & !IN_USE_MASK } else { TYPE_FILE };
    file[1] = secondary as u8;
    file[4..6].copy_from_slice(&attributes.to_le_bytes());
    let mut stream = [0u8; ENTRY_SIZE];
    stream[0] = if deleted { TYPE_STREAM & !IN_USE_MASK } else { TYPE_STREAM };
    stream[3] = units.len() as u8;
    stream[8..16].copy_from_slice(&size.to_le_bytes());
    stream[20..24].copy_from_slice(&cluster.to_le_bytes());
    stream[24..32].copy_from_slice(&size.to_le_bytes());
    let mut set = vec![file, stream];
    for chunk in units.chunks(NAME_CHARS_PER_ENTRY) {
        let mut e = [0u8; ENTRY_SIZE];
        e[0] = if deleted { TYPE_FILE_NAME & !IN_USE_MASK } else { TYPE_FILE_NAME };
        for (i, unit) in chunk.iter().enumerate() {
            e[2 + i * 2..4 + i * 2].copy_from_slice(&unit.to_le_bytes());
        }
        set.push(e);
    }
    let sum = set_checksum(&set);
    set[0][2..4].copy_from_slice(&sum.to_le_bytes());
    set
}

fn parsed(m: &Mem) -> RecoveryResult<ExfatVolume> {
    parse_volume(&m.device(), m.range())
}

fn read_root(m: &Mem, include_deleted: bool) -> (Vec<DirectoryEntry>, Vec<EntrySetError>) {
    let device = m.device();
    let v = parse_volume(&device, m.range()).unwrap();
    let mut rejected = Vec::new();
    let entries = read_directory(&device, &v, m.range(), ROOT_CLUSTER, include_deleted, &mut rejected).unwrap();
    (entries, rejected)
}

fn load(m: &Mem) -> RecoveryResult<AllocationBitmap> {
    let device = m.device();
    let v = parse_volume(&device, m.range()).unwrap();
    let required = u64::from(CLUSTER_COUNT).div_ceil(8);
    AllocationBitmap::load(&device, &v, m.range(), BITMAP_CLUSTER, required)
}

fn entry(first_cluster: u32, size: u64, no_fat_chain: bool, deleted: bool) -> DirectoryEntry {
    DirectoryEntry {
        name: "File.bin".into(),
        attributes: 0,
        first_cluster,
        data_length: size,
        valid_data_length: size,
        no_fat_chain,
        deleted,
    }
}

fn heap_offset(n: u32) -> u64 {
    (HEAP_SECTOR * SECTOR + (n as usize - 2) * CLUSTER) as u64
}

/// A volume of 1024-byte clusters whose heap starts at sector 2, with a
/// one-sector FAT at sector 1.
fn small_volume(cluster_count: u32, sectors_per_cluster: u64, heap: u64, volume_length: u64) -> ExfatVolume {
    ExfatVolume {
        bytes_per_sector: 512,
        sectors_per_cluster,
        fat_offset_sectors: 1,
        fat_length_sectors: 1,
        cluster_heap_offset_sectors: heap,
        cluster_count,
        root_directory_cluster: 2,
        volume_length_sectors: volume_length,
        fat_count: 1,
        volume_dirty: false,
    }
}

fn deleted_set(name: &str) -> Vec<[u8; 32]> {
    let units: Vec<u16> = name.encode_utf16().collect();
    let mut primary = [0u8; 32];
    primary[0] = DELETED_FILE;
    primary[1] = 2;
    primary[4..6].copy_from_slice(&0x20u16.to_le_bytes());
    let mut stream = [0u8; 32];
    stream[0] = DELETED_STREAM;
    stream[1] = 2;
    stream[3] = units.len() as u8;
    stream[20..24].copy_from_slice(&11u32.to_le_bytes());
    stream[24..32].copy_from_slice(&4096u64.to_le_bytes());
    let mut name_entry = [0u8; 32];
    name_entry[0] = DELETED_NAME;
    for (i, unit) in units.iter().enumerate() {
        let p = 2 + i * 2;
        name_entry[p..p + 2].copy_from_slice(&unit.to_le_bytes());
    }
    vec![primary, stream, name_entry]
}

fn fat_device(entries: &[(u32, u32)]) -> MemoryDevice {
    let mut bytes = vec![0u8; 64 * 512];
    for &(cluster, next) in entries {
        let offset = 512 + usize::try_from(cluster).unwrap() * 4;
        bytes[offset..offset + 4].copy_from_slice(&next.to_le_bytes());
    }
    MemoryDevice::new(bytes)
}

#[test]
fn reads_allocation_bits() {
    let mut entry = [0u8; 32];
    entry[0] = ENTRY_ALLOCATION_BITMAP;
    entry[20..24].copy_from_slice(&2u32.to_le_bytes());
    entry[24..32].copy_from_slice(&1u64.to_le_bytes());
    let bitmap = allocation::AllocationBitmap::parse(&entry, vec![0b0000_0101], 3).unwrap();
    assert!(bitmap.is_allocated(2).unwrap());
    assert!(!bitmap.is_allocated(3).unwrap());
    assert!(bitmap.is_allocated(4).unwrap());
}

#[test]
fn rejects_short_bitmap() {
    let mut entry = [0u8; 32];
    entry[0] = ENTRY_ALLOCATION_BITMAP;
    entry[20..24].copy_from_slice(&2u32.to_le_bytes());
    entry[24..32].copy_from_slice(&0u64.to_le_bytes());
    assert!(allocation::AllocationBitmap::parse(&entry, vec![], 1).is_err());
}

#[test]
fn reports_allocated_and_free_clusters() {
    let mut m = image();
    m.allocate(7);
    let b = load(&m).unwrap();
    assert_eq!(b.is_allocated(7), Some(true));
    assert_eq!(b.is_allocated(8), Some(false));
    assert_eq!(b.is_allocated(2), Some(true));
    assert_eq!(b.is_allocated(3), Some(true));
}

#[test]
fn clusters_outside_the_heap_are_not_classified() {
    let b = load(&image()).unwrap();
    assert_eq!(b.is_allocated(0), None);
    assert_eq!(b.is_allocated(1), None);
    assert_eq!(b.is_allocated(CLUSTER_COUNT + 2), None);
    assert_eq!(b.is_allocated(u32::MAX), None);
}

#[test]
fn counts_allocated_clusters() {
    let mut m = image();
    m.allocate(9);
    assert_eq!(load(&m).unwrap().allocated_count(), 3);
}

#[test]
fn rejects_bitmap_shorter_than_the_cluster_count() {
    let m = image();
    let device = m.device();
    let v = parse_volume(&device, m.range()).unwrap();
    assert!(AllocationBitmap::load(&device, &v, m.range(), BITMAP_CLUSTER, 1).is_err());
}

#[test]
fn rejects_oversized_bitmap_length() {
    let m = image();
    let device = m.device();
    let v = parse_volume(&device, m.range()).unwrap();
    assert!(AllocationBitmap::load(&device, &v, m.range(), BITMAP_CLUSTER, u64::MAX).is_err());
}

#[test]
fn rejects_chain_leaving_the_heap() {
    let m = image();
    let device = m.device();
    let v = parse_volume(&device, m.range()).unwrap();
    assert!(AllocationBitmap::load(&device, &v, m.range(), 0, 8).is_err());
    assert!(AllocationBitmap::load(&device, &v, m.range(), CLUSTER_COUNT + 5, 8).is_err());
}

#[test]
fn rejects_looping_bitmap_chain() {
    let mut m = image();
    m.link(BITMAP_CLUSTER, 4);
    m.link(4, BITMAP_CLUSTER);
    let device = m.device();
    let v = parse_volume(&device, m.range()).unwrap();
    assert!(AllocationBitmap::load(&device, &v, m.range(), BITMAP_CLUSTER, 2000).is_err());
}

#[test]
fn parses_valid_geometry() {
    let v = parsed(&image()).unwrap();
    assert_eq!(v.bytes_per_sector, 512);
    assert_eq!(v.sectors_per_cluster, 1);
    assert_eq!(v.cluster_count, CLUSTER_COUNT);
    assert_eq!(v.root_directory_cluster, 2);
    assert!(!v.volume_dirty);
}

#[test]
fn computes_cluster_offsets() {
    let v = parsed(&image()).unwrap();
    assert_eq!(v.cluster_offset(0, 2).unwrap(), (HEAP_SECTOR * 512) as u64);
    assert_eq!(v.cluster_offset(0, 3).unwrap(), (HEAP_SECTOR * 512 + 512) as u64);
}

#[test]
fn rejects_clusters_outside_the_heap() {
    let v = parsed(&image()).unwrap();
    assert!(v.cluster_offset(0, 0).is_err());
    assert!(v.cluster_offset(0, 1).is_err());
    assert!(v.cluster_offset(0, CLUSTER_COUNT + 2).is_err());
    assert!(v.cluster_offset(0, u32::MAX).is_err());
    assert!(!v.is_valid_cluster(u32::MAX));
}

#[test]
fn rejects_missing_oem_identifier() {
    let mut m = image();
    m.0[3] = b'X';
    assert!(parsed(&m).is_err());
}

#[test]
fn rejects_bad_boot_signature() {
    let mut m = image();
    m.0[510] = 0;
    assert!(parsed(&m).is_err());
}

#[test]
fn rejects_nonzero_reserved_bytes() {
    let mut m = image();
    m.0[11] = 1;
    assert!(parsed(&m).is_err());
}

#[test]
fn rejects_out_of_range_sector_shift() {
    for shift in [8u8, 13, 255] {
        let mut m = image();
        m.0[108] = shift;
        assert!(parsed(&m).is_err(), "shift {shift} must be rejected");
    }
}

#[test]
fn rejects_oversized_cluster() {
    let mut m = image();
    m.0[109] = 17;
    assert!(parsed(&m).is_err());
}

#[test]
fn rejects_invalid_fat_count() {
    for count in [0u8, 3, 255] {
        let mut m = image();
        m.0[110] = count;
        assert!(parsed(&m).is_err(), "fat count {count} must be rejected");
    }
}

#[test]
fn rejects_fat_overlapping_the_cluster_heap() {
    let mut m = image();
    m.0[84..88].copy_from_slice(&1000u32.to_le_bytes());
    assert!(parsed(&m).is_err());
}

#[test]
fn rejects_heap_extending_beyond_the_volume() {
    let mut m = image();
    m.0[92..96].copy_from_slice(&100_000u32.to_le_bytes());
    assert!(parsed(&m).is_err());
}

#[test]
fn rejects_root_cluster_outside_the_heap() {
    for root in [0u32, 1, CLUSTER_COUNT + 2] {
        let mut m = image();
        m.0[96..100].copy_from_slice(&root.to_le_bytes());
        assert!(parsed(&m).is_err(), "root {root} must be rejected");
    }
}

#[test]
fn rejects_zero_required_fields() {
    for offset in [72usize, 80, 84, 88] {
        let mut m = image();
        m.0[offset..offset + 4].copy_from_slice(&0u32.to_le_bytes());
        if offset == 72 {
            m.0[72..80].copy_from_slice(&0u64.to_le_bytes());
        }
        assert!(parsed(&m).is_err(), "zero at {offset} must be rejected");
    }
}

#[test]
fn rejects_volume_larger_than_the_supplied_range() {
    let mut m = image();
    m.0[72..80].copy_from_slice(&(TOTAL_SECTORS as u64 * 4).to_le_bytes());
    assert!(parsed(&m).is_err());
}

#[test]
fn rejects_range_smaller_than_a_boot_sector() {
    let m = image();
    assert!(parse_volume(&m.device(), ByteRange::new(0, 128).unwrap()).is_err());
}

#[test]
fn reports_dirty_volume_flag() {
    let mut m = image();
    m.0[106..108].copy_from_slice(&0x0002u16.to_le_bytes());
    assert!(parsed(&m).unwrap().volume_dirty);
}

#[test]
fn rejects_fat_entry_beyond_the_declared_fat() {
    let mut v = parsed(&image()).unwrap();
    v.cluster_count = 100_000;
    v.fat_length_sectors = 1;
    assert!(v.fat_entry_offset(0, 99_000).is_err());
    assert!(v.fat_entry_offset(0, 10).is_ok());
}

#[test]
fn fat_entry_offsets_are_sequential() {
    let v = parsed(&image()).unwrap();
    let a = v.fat_entry_offset(0, 2).unwrap();
    let b = v.fat_entry_offset(0, 3).unwrap();
    assert_eq!(b - a, 4);
}

#[test]
fn parses_a_valid_entry_set() {
    let mut m = image();
    m.write_set(0, &entry_set("Report.pdf", 5, 1234, 0, false));
    let (entries, rejected) = read_root(&m, false);
    assert!(rejected.is_empty());
    assert_eq!(entries.len(), 1);
    assert_eq!(entries[0].name, "Report.pdf");
    assert_eq!(entries[0].first_cluster, 5);
    assert_eq!(entries[0].data_length, 1234);
    assert!(!entries[0].deleted);
}

#[test]
fn parses_a_long_name_spanning_several_entries() {
    let mut m = image();
    let name = "A rather long exFAT file name here.txt";
    m.write_set(0, &entry_set(name, 5, 10, 0, false));
    let (entries, _) = read_root(&m, false);
    assert_eq!(entries[0].name, name);
}

#[test]
fn parses_non_ascii_names() {
    let mut m = image();
    m.write_set(0, &entry_set("café-漢字.txt", 5, 10, 0, false));
    let (entries, _) = read_root(&m, false);
    assert_eq!(entries[0].name, "café-漢字.txt");
}

#[test]
fn identifies_directories() {
    let mut m = image();
    m.write_set(0, &entry_set("Photos", 6, 0, ATTR_DIRECTORY, false));
    let (entries, _) = read_root(&m, false);
    assert!(entries[0].is_directory());
}

#[test]
fn rejects_a_checksum_mismatch() {
    let mut m = image();
    let mut set = entry_set("Report.pdf", 5, 10, 0, false);
    set[1][20] ^= 0xFF;
    m.write_set(0, &set);
    let (entries, rejected) = read_root(&m, false);
    assert!(entries.is_empty());
    assert!(matches!(rejected[0], EntrySetError::ChecksumMismatch { .. }));
}

#[test]
fn rejects_a_set_without_a_stream_entry() {
    let mut m = image();
    let mut set = entry_set("Report.pdf", 5, 10, 0, false);
    set[1][0] = TYPE_FILE_NAME;
    let sum = set_checksum(&set);
    set[0][2..4].copy_from_slice(&sum.to_le_bytes());
    m.write_set(0, &set);
    let (entries, rejected) = read_root(&m, false);
    assert!(entries.is_empty());
    assert_eq!(rejected[0], EntrySetError::MissingStream);
}

#[test]
fn rejects_out_of_range_secondary_counts() {
    for count in [0u8, 30, 255] {
        let mut m = image();
        let mut set = entry_set("A.txt", 5, 10, 0, false);
        set[0][1] = count;
        m.write_set(0, &set);
        let (entries, rejected) = read_root(&m, false);
        assert!(entries.is_empty(), "count {count} must not parse");
        assert!(!rejected.is_empty());
    }
}

#[test]
fn rejects_a_name_shorter_than_declared() {
    let mut m = image();
    let mut set = entry_set("A.txt", 5, 10, 0, false);
    set[1][3] = 200;
    let sum = set_checksum(&set);
    set[0][2..4].copy_from_slice(&sum.to_le_bytes());
    m.write_set(0, &set);
    let (entries, rejected) = read_root(&m, false);
    assert!(entries.is_empty());
    assert!(matches!(rejected[0], EntrySetError::NameLengthMismatch { .. }));
}

#[test]
fn rejects_a_name_containing_a_path_separator() {
    let mut m = image();
    m.write_set(0, &entry_set("../escape.txt", 5, 10, 0, false));
    let (entries, rejected) = read_root(&m, false);
    assert!(entries.is_empty());
    assert_eq!(rejected[0], EntrySetError::InvalidName);
}

#[test]
fn deleted_sets_are_excluded_unless_requested() {
    let mut m = image();
    m.write_set(0, &entry_set("Deleted.txt", 5, 10, 0, true));
    assert!(read_root(&m, false).0.is_empty());
    let (entries, _) = read_root(&m, true);
    assert_eq!(entries.len(), 1);
    assert!(entries[0].deleted);
    assert_eq!(entries[0].name, "Deleted.txt");
}

#[test]
fn a_malformed_set_does_not_stall_traversal() {
    let mut m = image();
    let mut bad = entry_set("Bad.txt", 5, 10, 0, false);
    bad[1][20] ^= 0xFF;
    m.write_set(0, &bad);
    m.write_set(bad.len(), &entry_set("Good.txt", 6, 20, 0, false));
    let (entries, rejected) = read_root(&m, false);
    assert_eq!(entries.len(), 1);
    assert_eq!(entries[0].name, "Good.txt");
    assert_eq!(rejected.len(), 1);
}

#[test]
fn stops_at_end_of_directory() {
    let mut m = image();
    m.write_set(0, &entry_set("First.txt", 5, 10, 0, false));
    m.write_set(8, &entry_set("After.txt", 6, 10, 0, false));
    let (entries, _) = read_root(&m, false);
    assert_eq!(entries.len(), 1);
    assert_eq!(entries[0].name, "First.txt");
}

#[test]
fn contiguous_streams_are_flagged() {
    let mut m = image();
    let mut set = entry_set("Contig.bin", 5, 4096, 0, false);
    set[1][1] |= 0x02;
    let sum = set_checksum(&set);
    set[0][2..4].copy_from_slice(&sum.to_le_bytes());
    m.write_set(0, &set);
    let (entries, _) = read_root(&m, false);
    assert!(entries[0].no_fat_chain);
}

#[test]
fn resolves_a_cluster_chain() {
    let mut m = image();
    m.link(5, 6);
    m.link(6, 0xFFFF_FFFF);
    let device = m.device();
    let v = parse_volume(&device, m.range()).unwrap();
    assert_eq!(cluster_chain(&device, &v, m.range(), 5).unwrap(), vec![5, 6]);
}

#[test]
fn detects_a_looping_chain() {
    let mut m = image();
    m.link(5, 6);
    m.link(6, 5);
    let device = m.device();
    let v = parse_volume(&device, m.range()).unwrap();
    assert!(cluster_chain(&device, &v, m.range(), 5).is_err());
}

#[test]
fn rejects_a_chain_leaving_the_heap() {
    let mut m = image();
    m.link(5, 9999);
    let device = m.device();
    let v = parse_volume(&device, m.range()).unwrap();
    assert!(cluster_chain(&device, &v, m.range(), 5).is_err());
}

#[test]
fn rejects_a_chain_entering_a_bad_cluster() {
    let mut m = image();
    m.link(5, 0xFFFF_FFF7);
    let device = m.device();
    let v = parse_volume(&device, m.range()).unwrap();
    assert!(cluster_chain(&device, &v, m.range(), 5).is_err());
}

#[test]
fn contiguous_stream_needs_no_fat_chain() {
    let m = image();
    let device = m.device();
    let v = parse_volume(&device, m.range()).unwrap();
    let s = stream_extents(&device, &v, m.range(), &entry(5, 1500, true, false)).unwrap();
    assert_eq!(s.state, ExtentState::Recoverable);
    assert_eq!(s.extents.len(), 1);
    assert_eq!(s.extents[0].source_range.offset, heap_offset(5));
    assert_eq!(s.recovered_size, 1500);
}

#[test]
fn fragmented_stream_follows_the_fat_chain() {
    let mut m = image();
    m.link(5, 9);
    m.link(9, 0xFFFF_FFFF);
    let device = m.device();
    let v = parse_volume(&device, m.range()).unwrap();
    let s = stream_extents(&device, &v, m.range(), &entry(5, 1000, false, false)).unwrap();
    assert_eq!(s.state, ExtentState::Recoverable);
    assert_eq!(s.extents.len(), 2);
    assert_eq!(s.extents[0].logical_offset, 0);
    assert_eq!(s.extents[1].logical_offset, 512);
    assert_eq!(s.extents[1].source_range.offset, heap_offset(9));
    assert!(validate_logical_layout(&s.extents).is_ok());
}

#[test]
fn final_cluster_is_trimmed_to_the_declared_size() {
    let mut m = image();
    m.link(5, 6);
    m.link(6, 0xFFFF_FFFF);
    let device = m.device();
    let v = parse_volume(&device, m.range()).unwrap();
    let s = stream_extents(&device, &v, m.range(), &entry(5, 600, false, false)).unwrap();
    assert_eq!(s.recovered_size, 600);
}

#[test]
fn chain_shorter_than_declared_size_is_partial() {
    let mut m = image();
    m.link(5, 0xFFFF_FFFF);
    let device = m.device();
    let v = parse_volume(&device, m.range()).unwrap();
    let s = stream_extents(&device, &v, m.range(), &entry(5, 4096, false, false)).unwrap();
    assert_eq!(s.state, ExtentState::PartiallyRecoverable);
    assert_eq!(s.recovered_size, 512);
    assert!(!s.diagnostics.is_empty());
}

#[test]
fn broken_chain_keeps_the_recoverable_prefix() {
    let mut m = image();
    m.link(5, 6);
    m.link(6, 9999);
    let device = m.device();
    let v = parse_volume(&device, m.range()).unwrap();
    let s = stream_extents(&device, &v, m.range(), &entry(5, 4096, false, false)).unwrap();
    assert_eq!(s.state, ExtentState::PartiallyRecoverable);
    assert_eq!(s.recovered_size, 1024);
    assert!(s.diagnostics.iter().any(|d| d.contains("did not resolve cleanly")));
}

#[test]
fn unwritten_tail_is_reported() {
    let m = image();
    let device = m.device();
    let v = parse_volume(&device, m.range()).unwrap();
    let mut e = entry(5, 2000, true, false);
    e.valid_data_length = 500;
    let s = stream_extents(&device, &v, m.range(), &e).unwrap();
    assert!(s.diagnostics.iter().any(|d| d.contains("were ever written")));
}

#[test]
fn contiguous_run_stops_at_the_end_of_the_heap() {
    let m = image();
    let device = m.device();
    let r = m.range();
    let v = parse_volume(&device, r).unwrap();
    let s = stream_extents(&device, &v, r, &entry(CLUSTER_COUNT, 1 << 20, true, false)).unwrap();
    for e in &s.extents {
        assert!(e.source_range.end().unwrap() <= r.end().unwrap());
    }
    assert_eq!(s.state, ExtentState::PartiallyRecoverable);
}

#[test]
fn zero_length_stream_yields_no_extents() {
    let m = image();
    let device = m.device();
    let v = parse_volume(&device, m.range()).unwrap();
    let s = stream_extents(&device, &v, m.range(), &entry(5, 0, true, false)).unwrap();
    assert!(s.extents.is_empty());
    assert_eq!(s.state, ExtentState::Recoverable);
}

#[test]
fn stream_without_a_valid_start_cluster_is_metadata_only() {
    let m = image();
    let device = m.device();
    let v = parse_volume(&device, m.range()).unwrap();
    let s = stream_extents(&device, &v, m.range(), &entry(0, 500, true, false)).unwrap();
    assert_eq!(s.state, ExtentState::MetadataOnly);
}

#[test]
fn rejects_a_directory_entry() {
    let m = image();
    let device = m.device();
    let v = parse_volume(&device, m.range()).unwrap();
    let mut d = entry(5, 0, true, false);
    d.attributes = ATTR_DIRECTORY;
    assert!(stream_extents(&device, &v, m.range(), &d).is_err());
}

#[test]
fn deleted_contiguous_file_reaches_medium_confidence() {
    let m = image();
    let v = parsed(&m).unwrap();
    let b = load(&m).unwrap();
    let c = deleted_candidate(&v, m.range(), Some(&b), &entry(5, 1500, true, true)).unwrap();
    assert_eq!(c.state, ExtentState::Recoverable);
    assert_eq!(c.confidence, Confidence::Medium);
    assert!(c.evidence.iter().any(|e| e.contains("recorded as contiguous")));
}

#[test]
fn deleted_fragmented_multi_cluster_file_stays_low() {
    let m = image();
    let v = parsed(&m).unwrap();
    let b = load(&m).unwrap();
    let c = deleted_candidate(&v, m.range(), Some(&b), &entry(5, 1500, false, true)).unwrap();
    assert_eq!(c.confidence, Confidence::Low);
    assert!(c.evidence.iter().any(|e| e.contains("fragmented")));
}

#[test]
fn reallocated_cluster_truncates_the_candidate() {
    let mut m = image();
    m.allocate(6);
    let v = parsed(&m).unwrap();
    let b = load(&m).unwrap();
    let c = deleted_candidate(&v, m.range(), Some(&b), &entry(5, 1500, true, true)).unwrap();
    assert_eq!(c.state, ExtentState::PartiallyRecoverable);
    assert_eq!(c.confidence, Confidence::Low);
    assert_eq!(c.extents[0].source_range.length, 512);
    assert!(c.evidence.iter().any(|e| e.contains("overwritten")));
}

#[test]
fn fully_reallocated_file_yields_no_extents() {
    let mut m = image();
    m.allocate(5);
    let v = parsed(&m).unwrap();
    let b = load(&m).unwrap();
    let c = deleted_candidate(&v, m.range(), Some(&b), &entry(5, 512, true, true)).unwrap();
    assert_eq!(c.state, ExtentState::MetadataOnly);
    assert_eq!(c.confidence, Confidence::Unknown);
}

#[test]
fn deleted_name_survives_intact() {
    let m = image();
    let v = parsed(&m).unwrap();
    let b = load(&m).unwrap();
    let mut e = entry(5, 100, true, true);
    e.name = "Quarterly Report.pdf".into();
    let c = deleted_candidate(&v, m.range(), Some(&b), &e).unwrap();
    assert_eq!(c.name, "Quarterly Report.pdf");
    assert!(c.evidence.iter().any(|x| x.contains("intact")));
}

#[test]
fn missing_bitmap_lowers_confidence_and_is_recorded() {
    let m = image();
    let v = parsed(&m).unwrap();
    let c = deleted_candidate(&v, m.range(), None, &entry(5, 512, true, true)).unwrap();
    assert_eq!(c.confidence, Confidence::Low);
    assert!(c.evidence.iter().any(|e| e.contains("bitmap unavailable")));
}

#[test]
fn rejects_an_active_entry() {
    let m = image();
    let v = parsed(&m).unwrap();
    assert!(deleted_candidate(&v, m.range(), None, &entry(5, 100, true, false)).is_err());
}

#[test]
fn no_candidate_is_ever_high_confidence() {
    let m = image();
    let v = parsed(&m).unwrap();
    let b = load(&m).unwrap();
    for e in [entry(5, 100, true, true), entry(5, 5000, false, true), entry(0, 10, true, true), entry(5, 512, true, true)] {
        let c = deleted_candidate(&v, m.range(), Some(&b), &e).unwrap();
        assert_ne!(c.confidence, Confidence::High);
        assert!(!c.evidence.is_empty());
    }
}

#[test]
fn parses_deleted_file_metadata() {
    let entry = parse_deleted_directory_entry_set(&deleted_set("old.txt")).unwrap();
    assert_eq!(entry.name, "old.txt");
    assert_eq!(entry.first_cluster, 11);
    assert_eq!(entry.data_length, 4096);
    assert!(entry.deleted);
}

#[test]
fn rejects_active_entry_type() {
    let mut set = deleted_set("old.txt");
    set[0][0] = 0x85;
    assert!(parse_deleted_directory_entry_set(&set).is_err());
}

#[test]
fn rejects_truncated_deleted_set() {
    let mut bytes = Vec::new();
    for entry in &deleted_set("old.txt") {
        bytes.extend_from_slice(entry);
    }
    assert!(parse_deleted_directory_entries(&bytes[..64]).is_err());
    assert_eq!(parse_deleted_directory_entries(&bytes).unwrap().len(), 1);
}

#[test]
fn contiguous_file_uses_trimmed_ranges() {
    let volume = small_volume(10, 2, 2, 100);
    let device = MemoryDevice::new(vec![0u8; 51_200]);
    let entry = DirectoryEntry {
        name: "x".into(),
        attributes: 0,
        first_cluster: 3,
        data_length: 1500,
        valid_data_length: 1500,
        no_fat_chain: true,
        deleted: false,
    };
    let ranges = active_file_extents(&volume, &device, ByteRange::new(0, 51_200).unwrap(), &entry).unwrap();
    assert_eq!(ranges.len(), 2);
    assert_eq!(ranges[0].length, 1024);
    assert_eq!(ranges[1].length, 476);
}

#[test]
fn reads_a_deleted_file_across_contiguous_clusters() {
    // 1500 bytes: one whole 1024-byte cluster, then 476 bytes of the next.
    let mut bytes = vec![0u8; 51_200];
    bytes[3_072..4_096].fill(0xC3);
    bytes[4_096..4_572].fill(0x3C);
    bytes[4_572] = 0xEE;
    let device = MemoryDevice::new(bytes);
    let entry = DirectoryEntry {
        name: "old.bin".into(),
        attributes: 0,
        first_cluster: 4,
        data_length: 1_500,
        valid_data_length: 1_500,
        no_fat_chain: true,
        deleted: true,
    };
    let data =
        read_deleted_file(&small_volume(10, 2, 2, 100), &device, ByteRange::new(0, 51_200).unwrap(), &entry, 10_000)
            .unwrap();
    assert_eq!(data.len(), 1_500);
    assert!(data[..1_024].iter().all(|&b| b == 0xC3));
    assert!(data[1_024..].iter().all(|&b| b == 0x3C));
}

#[test]
fn rejects_deleted_file_above_limit() {
    let device = MemoryDevice::new(vec![0; 51_200]);
    let entry = DirectoryEntry {
        name: "large.bin".into(),
        attributes: 0,
        first_cluster: 4,
        data_length: 1_500,
        valid_data_length: 1_500,
        no_fat_chain: true,
        deleted: true,
    };
    assert!(matches!(
        read_deleted_file(&small_volume(10, 2, 2, 100), &device, ByteRange::new(0, 51_200).unwrap(), &entry, 1_499),
        Err(RecoveryError::LengthTooLarge { .. })
    ));
}

#[test]
fn traverses_normal_chain_to_eoc() {
    let device = fat_device(&[(2, 3), (3, 4), (4, 0xFFFF_FFFF)]);
    let range = ByteRange::new(0, 64 * 512).unwrap();
    assert_eq!(cluster_chain(&device, &small_volume(16, 1, 8, 64), range, 2).unwrap(), vec![2, 3, 4]);
}

#[test]
fn rejects_looping_chain() {
    let device = fat_device(&[(2, 3), (3, 2)]);
    let range = ByteRange::new(0, 64 * 512).unwrap();
    assert!(cluster_chain(&device, &small_volume(16, 1, 8, 64), range, 2).is_err());
}

#[test]
fn rejects_bad_cluster_marker() {
    let device = fat_device(&[(2, 0xFFFF_FFF7)]);
    let range = ByteRange::new(0, 64 * 512).unwrap();
    assert!(cluster_chain(&device, &small_volume(16, 1, 8, 64), range, 2).is_err());
}

#[test]
fn rejects_out_of_range_link() {
    let device = fat_device(&[(2, 99)]);
    let range = ByteRange::new(0, 64 * 512).unwrap();
    assert!(cluster_chain(&device, &small_volume(16, 1, 8, 64), range, 2).is_err());
}

#[test]
fn the_allocation_bitmap_is_found_through_the_root_directory() {
    let mut m = image();
    let mut bitmap_entry = [0u8; 32];
    bitmap_entry[0] = ENTRY_ALLOCATION_BITMAP;
    bitmap_entry[20..24].copy_from_slice(&BITMAP_CLUSTER.to_le_bytes());
    bitmap_entry[24..32].copy_from_slice(&8u64.to_le_bytes());
    m.put_entry(ROOT_CLUSTER, 0, &bitmap_entry);
    m.allocate(10);
    let device = m.device();
    let v = parse_volume(&device, m.range()).unwrap();
    let bitmap = allocation::read_allocation_bitmap(&v, &device, m.range()).unwrap();
    assert!(bitmap.is_allocated(10).unwrap());
    assert!(!bitmap.is_allocated(11).unwrap());
}

#[test]
fn counts_deleted_sets_up_to_the_end_marker() {
    let mut bytes = Vec::new();
    for entry in &deleted_set("one.txt") {
        bytes.extend_from_slice(entry);
    }
    let mut other = [0u8; 32];
    other[0] = 0x83;
    bytes.extend_from_slice(&other);
    for entry in &deleted_set("two.txt") {
        bytes.extend_from_slice(entry);
    }
    bytes.extend_from_slice(&[0u8; 32]);
    for entry in &deleted_set("late.txt") {
        bytes.extend_from_slice(entry);
    }
    let found = parse_deleted_directory_entries(&bytes).unwrap();
    assert_eq!(found.len(), 2);
    assert_eq!(found[0].name, "one.txt");
    assert_eq!(found[1].name, "two.txt");
}

#[test]
fn a_malformed_deleted_set_fails_the_whole_parse() {
    let mut bytes = Vec::new();
    for entry in &deleted_set("one.txt") {
        bytes.extend_from_slice(entry);
    }
    let mut broken = deleted_set("two.txt");
    broken[1][0] = 0xC0;
    for entry in &broken {
        bytes.extend_from_slice(entry);
    }
    assert!(parse_deleted_directory_entries(&bytes).is_err());
}
