//! Whole-disk scans over a generated MBR + FAT32 image.

use data_recovery::candidate::CancellationToken;
use data_recovery::carving::registry::{registry, CarveLimits};
use data_recovery::carving::scanner::carve;
use data_recovery::device::MemoryDevice;
use data_recovery::engine::scan_device;
use data_recovery::fat32::{parse_volume, read_root_entries};
use data_recovery::partition::{discover_mbr, DiskGeometry};
use data_recovery::probe::{probe, FilesystemKind};

const SECTOR: usize = 512;

struct Fat32Image {
    bytes: Vec<u8>,
    partition_offset: u64,
    reserved_sectors: usize,
    sectors_per_fat: usize,
    sectors_per_cluster: usize,
}

impl Fat32Image {
    fn build() -> Self {
        let partition_start_sector = 2048usize;
        let reserved_sectors = 32usize;
        let sectors_per_fat = 520usize;
        let sectors_per_cluster = 1usize;
        let fat_count = 2usize;
        let data_sectors = 66_000usize;
        let volume_sectors = reserved_sectors + fat_count * sectors_per_fat + data_sectors;
        let total_sectors = partition_start_sector + volume_sectors;
        let mut bytes = vec![0u8; total_sectors * SECTOR];
        let entry = 446usize;
        bytes[entry] = 0x00;
        bytes[entry + 4] = 0x0C;
        bytes[entry + 8..entry + 12].copy_from_slice(&(partition_start_sector as u32).to_le_bytes());
        bytes[entry + 12..entry + 16].copy_from_slice(&(volume_sectors as u32).to_le_bytes());
        bytes[510] = 0x55;
        bytes[511] = 0xAA;
        let vbr = partition_start_sector * SECTOR;
        bytes[vbr + 11..vbr + 13].copy_from_slice(&(SECTOR as u16).to_le_bytes());
        bytes[vbr + 13] = sectors_per_cluster as u8;
        bytes[vbr + 14..vbr + 16].copy_from_slice(&(reserved_sectors as u16).to_le_bytes());
        bytes[vbr + 16] = fat_count as u8;
        bytes[vbr + 32..vbr + 36].copy_from_slice(&(volume_sectors as u32).to_le_bytes());
        bytes[vbr + 36..vbr + 40].copy_from_slice(&(sectors_per_fat as u32).to_le_bytes());
        bytes[vbr + 44..vbr + 48].copy_from_slice(&2u32.to_le_bytes());
        bytes[vbr + 510] = 0x55;
        bytes[vbr + 511] = 0xAA;
        let mut image = Self {
            bytes,
            partition_offset: (partition_start_sector * SECTOR) as u64,
            reserved_sectors,
            sectors_per_fat,
            sectors_per_cluster,
        };
        image.set_fat(2, 0x0FFF_FFFF);
        image
    }

    fn cluster_offset(&self, cluster: u32) -> usize {
        let first_data_sector = self.reserved_sectors + 2 * self.sectors_per_fat;
        self.partition_offset as usize + (first_data_sector + (cluster as usize - 2) * self.sectors_per_cluster) * SECTOR
    }

    fn set_fat(&mut self, cluster: u32, value: u32) {
        let fat_base = self.partition_offset as usize + self.reserved_sectors * SECTOR;
        for copy in 0..2usize {
            let offset = fat_base + copy * self.sectors_per_fat * SECTOR + cluster as usize * 4;
            self.bytes[offset..offset + 4].copy_from_slice(&value.to_le_bytes());
        }
    }

    fn put_root_entry(&mut self, slot: usize, entry: &[u8; 32]) {
        let offset = self.cluster_offset(2) + slot * 32;
        self.bytes[offset..offset + 32].copy_from_slice(entry);
    }

    fn put_cluster_data(&mut self, cluster: u32, data: &[u8]) {
        let offset = self.cluster_offset(cluster);
        self.bytes[offset..offset + data.len()].copy_from_slice(data);
    }

    fn dir_entry(name: &[u8; 11], cluster: u32, size: u32, deleted: bool) -> [u8; 32] {
        let mut e = [0u8; 32];
        e[0..11].copy_from_slice(name);
        if deleted {
            e[0] = 0xE5;
        }
        e[11] = 0x20;
        e[20..22].copy_from_slice(&((cluster >> 16) as u16).to_le_bytes());
        e[26..28].copy_from_slice(&(cluster as u16).to_le_bytes());
        e[28..32].copy_from_slice(&size.to_le_bytes());
        e
    }
}

fn jpeg(body: usize) -> Vec<u8> {
    let mut v = vec![0xFF, 0xD8, 0xFF, 0xE0, 0x00, 0x10];
    v.extend_from_slice(b"JFIF\0");
    v.resize(18, 0);
    v.extend(std::iter::repeat_n(0x41u8, body));
    v.extend_from_slice(&[0xFF, 0xD9]);
    v
}

fn populated_image() -> (MemoryDevice, Vec<u8>) {
    let mut image = Fat32Image::build();
    let photo = jpeg(200);
    image.set_fat(3, 0x0FFF_FFFF);
    image.put_cluster_data(3, &photo);
    image.put_root_entry(0, &Fat32Image::dir_entry(b"PHOTO   JPG", 3, photo.len() as u32, false));
    let notes = b"deleted notes content";
    image.put_cluster_data(5, notes);
    image.put_root_entry(1, &Fat32Image::dir_entry(b"NOTES   TXT", 5, notes.len() as u32, true));
    (MemoryDevice::new(image.bytes), photo)
}

#[test]
fn discovers_the_partition_and_identifies_the_filesystem() {
    let (device, _) = populated_image();
    let geometry = DiskGeometry::new(SECTOR as u64).unwrap();
    let discovery = discover_mbr(&device, geometry).unwrap();
    assert_eq!(discovery.partitions.len(), 1, "expected one MBR partition");
    let partition = &discovery.partitions[0];
    let evidence = probe(&device, partition.range).unwrap();
    assert_eq!(evidence.kind, FilesystemKind::Fat32);
    assert!(evidence.confidence > 0);
}

#[test]
fn end_to_end_scanning_never_modifies_the_source() {
    let (device, _) = populated_image();
    let before = device.snapshot();
    let geometry = DiskGeometry::new(SECTOR as u64).unwrap();
    let partition = discover_mbr(&device, geometry).unwrap().partitions[0].range;
    let _ = probe(&device, partition).unwrap();
    let volume = parse_volume(&device, partition).unwrap();
    let entries = read_root_entries(&device, partition, true).unwrap();
    for entry in &entries {
        if !entry.deleted && entry.attributes & 0x10 == 0 {
            let _ = volume.cluster_chain(&device, partition, entry.first_cluster);
        }
    }
    let _ = carve(&device, partition, &registry(), &CarveLimits::default(), &CancellationToken::default()).unwrap();
    let _ = scan_device(&device, "disk.img", true, &CancellationToken::default());
    assert_eq!(device.snapshot(), before, "the source was modified during a scan");
}

#[test]
fn a_truncated_image_does_not_panic() {
    let (device, _) = populated_image();
    let full = device.snapshot();
    let geometry = DiskGeometry::new(SECTOR as u64).unwrap();
    for fraction in [1usize, 2, 4, 8, 16, 100] {
        let truncated = MemoryDevice::new(full[..full.len() / fraction].to_vec());
        let Ok(discovery) = discover_mbr(&truncated, geometry) else {
            continue;
        };
        for partition in &discovery.partitions {
            let _ = probe(&truncated, partition.range);
            if let Ok(volume) = parse_volume(&truncated, partition.range) {
                if let Ok(entries) = read_root_entries(&truncated, partition.range, true) {
                    for entry in &entries {
                        if entry.attributes & 0x10 == 0 {
                            let _ = volume.cluster_chain(&truncated, partition.range, entry.first_cluster);
                        }
                    }
                }
            }
        }
        let _ = scan_device(&truncated, "truncated.img", false, &CancellationToken::default());
    }
}

#[test]
fn corrupted_metadata_does_not_panic() {
    let (device, _) = populated_image();
    let full = device.snapshot();
    let geometry = DiskGeometry::new(SECTOR as u64).unwrap();
    let mut reached_entries = 0usize;
    for offset in (0..(2048 + 32 + 1100) * SECTOR).step_by(4093) {
        let mut bytes = full.clone();
        bytes[offset] ^= 0xFF;
        let corrupted = MemoryDevice::new(bytes);
        let Ok(discovery) = discover_mbr(&corrupted, geometry) else {
            continue;
        };
        for partition in &discovery.partitions {
            let _ = probe(&corrupted, partition.range);
            let Ok(volume) = parse_volume(&corrupted, partition.range) else {
                continue;
            };
            let Ok(entries) = read_root_entries(&corrupted, partition.range, true) else {
                continue;
            };
            for entry in &entries {
                if entry.attributes & 0x10 == 0 {
                    reached_entries += 1;
                    let _ = volume.cluster_chain(&corrupted, partition.range, entry.first_cluster);
                }
            }
        }
    }
    assert!(reached_entries > 100, "corruption sweep only reached {reached_entries} entries");
}

#[test]
fn carving_finds_the_photo_the_filesystem_holds() {
    let (device, photo) = populated_image();
    let geometry = DiskGeometry::new(SECTOR as u64).unwrap();
    let partition = discover_mbr(&device, geometry).unwrap().partitions[0].range;
    let carved = carve(&device, partition, &registry(), &CarveLimits::default(), &CancellationToken::default()).unwrap();
    assert_eq!(carved.len(), 1);
    assert_eq!(carved[0].extents[0].source_range.length, photo.len() as u64);
    let mut token = CancellationToken::default();
    token.cancel();
    assert!(carve(&device, partition, &registry(), &CarveLimits::default(), &token).is_err());
}

#[test]
fn a_whole_disk_scan_lists_the_fat32_partition() {
    let (device, _) = populated_image();
    let result = scan_device(&device, "disk.img", true, &CancellationToken::default());
    assert_eq!(result.partitions.len(), 1);
    assert_eq!(result.partitions[0].filesystem, "FAT32");
    assert_eq!(result.partitions[0].offset, 2048 * 512);
    assert!(!result.partitions[0].evidence.is_empty());
    assert!(result.candidates.iter().any(|c| c.origin == "carved" && c.name.ends_with(".jpg")));
}
