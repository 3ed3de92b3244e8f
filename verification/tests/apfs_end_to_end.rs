//! End-to-end APFS recovery over a synthetic container built from the
//! on-disk structures the library parses, with real Fletcher-64 checksums.

use data_recovery::apfs::checkpoint::read_latest_container_superblock_with_block;
use data_recovery::apfs::checksum::fletcher64;
use data_recovery::apfs::filesystem::{read_file_extents, read_volume_filesystem_index};
use data_recovery::apfs::recovery::{
    find_entry_by_path, for_each_discovered_volume_file, for_each_discovered_volume_file_chunk, for_each_regular_file,
    for_each_regular_file_chunk, recover_discovered_volumes, recover_regular_files, FileChunkLog, FileLog,
    VolumeChunkLog, VolumeFileLog,
};
use data_recovery::apfs::volume::{discover_volumes, resolve_volume_root};
use data_recovery::device::{BlockDevice, MemoryDevice};
use data_recovery::range::ByteRange;

const BLOCK_SIZE: usize = 4096;
const BLOCK_COUNT: u64 = 32;
const NXSB_MAGIC: u32 = 0x4253_584e;
const APSB_MAGIC: u32 = 0x4253_5041;
const OBJ_TYPE_NX_SUPERBLOCK: u32 = 0x0000_0001;
const OBJ_TYPE_BTREE: u32 = 0x0000_0002;
const OBJ_TYPE_SHIFT: u32 = 60;
const APFS_TYPE_INODE: u64 = 3;
const APFS_TYPE_DIR_REC: u64 = 9;
const APFS_TYPE_FILE_EXTENT: u64 = 8;
const INO_EXT_TYPE_DSTREAM: u8 = 8;
const J_INODE_VAL_FIXED_SIZE: usize = 92;
const FLAG_ROOT: u16 = 0x0001;
const FLAG_LEAF: u16 = 0x0002;
const FLAG_FIXED_KV_SIZE: u16 = 0x0004;
const NODE_HEADER_LEN: usize = 56;
const BTREE_FOOTER_LEN: usize = 40;
const BLK_CHECKPOINT: u64 = 1;
const BLK_CONTAINER_OMAP: u64 = 2;
const BLK_CONTAINER_OMAP_ROOT: u64 = 3;
const BLK_VOLUME_SUPERBLOCK: u64 = 4;
const BLK_VOLUME_OMAP: u64 = 5;
const BLK_VOLUME_OMAP_ROOT: u64 = 6;
const BLK_CATALOG_ROOT: u64 = 7;
const BLK_DATA_START: u64 = 8;
const VOLUME_OID: u64 = 1024;
const CATALOG_OID: u64 = 2048;
const XID: u64 = 2;

struct PlannedFile {
    name: &'static str,
    inode_id: u64,
    contents: Vec<u8>,
    linked: bool,
}

struct ApfsImage {
    bytes: Vec<u8>,
    files: Vec<PlannedFile>,
}

fn put_u16(b: &mut [u8], at: usize, v: u16) {
    b[at..at + 2].copy_from_slice(&v.to_le_bytes());
}

fn put_u32(b: &mut [u8], at: usize, v: u32) {
    b[at..at + 4].copy_from_slice(&v.to_le_bytes());
}

fn put_u64(b: &mut [u8], at: usize, v: u64) {
    b[at..at + 8].copy_from_slice(&v.to_le_bytes());
}

fn seal(block: &mut [u8], oid: u64, xid: u64, object_type: u32) {
    put_u64(block, 8, oid);
    put_u64(block, 16, xid);
    put_u32(block, 24, object_type);
    put_u32(block, 28, 0);
    let checksum = fletcher64(block).expect("fixture block is checksummable");
    put_u64(block, 0, checksum);
}

fn jkey(record_type: u64, object_id: u64) -> [u8; 8] {
    ((record_type << OBJ_TYPE_SHIFT) | object_id).to_le_bytes()
}

fn omap_btree_root(entries: &[(u64, u64, u64)]) -> Vec<u8> {
    let mut block = vec![0u8; BLOCK_SIZE];
    put_u16(&mut block, 32, FLAG_ROOT | FLAG_LEAF | FLAG_FIXED_KV_SIZE);
    put_u16(&mut block, 34, 0);
    put_u32(&mut block, 36, entries.len() as u32);
    put_u16(&mut block, 40, 0);
    let table_len = (entries.len() * 4).next_multiple_of(8) as u16;
    put_u16(&mut block, 42, table_len);
    let table_start = NODE_HEADER_LEN;
    let kv_start = table_start + table_len as usize;
    let value_area_end = BLOCK_SIZE - BTREE_FOOTER_LEN;
    for (index, (oid, xid, physical)) in entries.iter().enumerate() {
        let key_offset = index * 16;
        let value_offset = index * 16;
        put_u16(&mut block, table_start + index * 4, key_offset as u16);
        put_u16(&mut block, table_start + index * 4 + 2, value_offset as u16);
        let key_at = kv_start + key_offset;
        put_u64(&mut block, key_at, *oid);
        put_u64(&mut block, key_at + 8, *xid);
        let value_start = value_area_end - value_offset - 16;
        put_u32(&mut block, value_start, 0);
        put_u32(&mut block, value_start + 4, BLOCK_SIZE as u32);
        put_u64(&mut block, value_start + 8, *physical);
    }
    block
}

fn catalog_leaf(records: &[(Vec<u8>, Vec<u8>)]) -> Vec<u8> {
    let mut block = vec![0u8; BLOCK_SIZE];
    put_u16(&mut block, 32, FLAG_ROOT | FLAG_LEAF);
    put_u16(&mut block, 34, 0);
    put_u32(&mut block, 36, records.len() as u32);
    put_u16(&mut block, 40, 0);
    let table_len = (records.len() * 8).next_multiple_of(8) as u16;
    put_u16(&mut block, 42, table_len);
    let table_start = NODE_HEADER_LEN;
    let kv_start = table_start + table_len as usize;
    let value_area_end = BLOCK_SIZE - BTREE_FOOTER_LEN;
    let mut key_cursor = 0usize;
    let mut value_cursor = 0usize;
    for (index, (key, value)) in records.iter().enumerate() {
        let key_offset = key_cursor;
        let value_offset = value_cursor;
        let entry = table_start + index * 8;
        put_u16(&mut block, entry, key_offset as u16);
        put_u16(&mut block, entry + 2, key.len() as u16);
        put_u16(&mut block, entry + 4, value_offset as u16);
        put_u16(&mut block, entry + 6, value.len() as u16);
        let key_at = kv_start + key_offset;
        block[key_at..key_at + key.len()].copy_from_slice(key);
        let value_start = value_area_end - value_offset - value.len();
        block[value_start..value_start + value.len()].copy_from_slice(value);
        key_cursor += key.len();
        value_cursor += value.len();
    }
    block
}

fn inode_value(parent_id: u64, private_id: u64, mode: u16, size: u64) -> Vec<u8> {
    let mut value = vec![0u8; J_INODE_VAL_FIXED_SIZE];
    put_u64(&mut value, 0, parent_id);
    put_u64(&mut value, 8, private_id);
    put_u32(&mut value, 56, 1);
    put_u16(&mut value, 80, mode);
    put_u64(&mut value, 84, size);
    let dstream_len = 40usize;
    let mut x = Vec::new();
    x.extend_from_slice(&1u16.to_le_bytes());
    x.extend_from_slice(&(dstream_len as u16).to_le_bytes());
    x.push(INO_EXT_TYPE_DSTREAM);
    x.push(0);
    x.extend_from_slice(&(dstream_len as u16).to_le_bytes());
    let mut dstream = vec![0u8; dstream_len];
    put_u64(&mut dstream, 0, size);
    x.extend_from_slice(&dstream);
    value.extend_from_slice(&x);
    value
}

impl ApfsImage {
    fn build() -> Self {
        let files = vec![
            PlannedFile {
                name: "report.txt",
                inode_id: 20,
                contents: (0..(BLOCK_SIZE + 1000)).map(|i| (i % 251) as u8).collect(),
                linked: true,
            },
            PlannedFile {
                name: "notes.txt",
                inode_id: 21,
                contents: b"the quick brown fox jumps over the lazy dog".to_vec(),
                linked: true,
            },
            PlannedFile {
                name: "deleted.bin",
                inode_id: 22,
                contents: (0..3000).map(|i| (i % 97) as u8).collect(),
                linked: false,
            },
        ];
        let mut bytes = vec![0u8; BLOCK_SIZE * BLOCK_COUNT as usize];
        let mut records: Vec<(Vec<u8>, Vec<u8>)> = Vec::new();
        let mut next_block = BLK_DATA_START;
        let mut extent_records: Vec<(Vec<u8>, Vec<u8>)> = Vec::new();
        let mut inode_records: Vec<(Vec<u8>, Vec<u8>)> = Vec::new();
        let mut drec_records: Vec<(Vec<u8>, Vec<u8>)> = Vec::new();
        for file in &files {
            let dstream_id = file.inode_id + 1000;
            let size = file.contents.len() as u64;
            let mut logical = 0u64;
            let mut written = 0usize;
            while written < file.contents.len() {
                let chunk = (file.contents.len() - written).min(BLOCK_SIZE);
                let physical = next_block;
                next_block += 1;
                if file.name == "report.txt" {
                    next_block += 1;
                }
                let at = physical as usize * BLOCK_SIZE;
                bytes[at..at + chunk].copy_from_slice(&file.contents[written..written + chunk]);
                let mut key = Vec::new();
                key.extend_from_slice(&jkey(APFS_TYPE_FILE_EXTENT, dstream_id));
                key.extend_from_slice(&logical.to_le_bytes());
                let mut value = vec![0u8; 24];
                put_u64(&mut value, 0, BLOCK_SIZE as u64);
                put_u64(&mut value, 8, physical);
                extent_records.push((key, value));
                logical += BLOCK_SIZE as u64;
                written += chunk;
            }
            let mut key = Vec::new();
            key.extend_from_slice(&jkey(APFS_TYPE_INODE, file.inode_id));
            inode_records.push((key, inode_value(2, dstream_id, 0o100644, size)));
            if file.linked {
                let mut name_bytes = file.name.as_bytes().to_vec();
                name_bytes.push(0);
                let mut key = Vec::new();
                key.extend_from_slice(&jkey(APFS_TYPE_DIR_REC, 2));
                key.extend_from_slice(&(name_bytes.len() as u16).to_le_bytes());
                key.extend_from_slice(&name_bytes);
                let mut value = vec![0u8; 18];
                put_u64(&mut value, 0, file.inode_id);
                drec_records.push((key, value));
            }
        }
        records.extend(inode_records);
        records.extend(extent_records);
        records.extend(drec_records);

        let catalog = catalog_leaf(&records);
        let at = BLK_CATALOG_ROOT as usize * BLOCK_SIZE;
        bytes[at..at + BLOCK_SIZE].copy_from_slice(&catalog);
        seal(&mut bytes[at..at + BLOCK_SIZE], CATALOG_OID, XID, OBJ_TYPE_BTREE);

        let vroot = omap_btree_root(&[(CATALOG_OID, XID, BLK_CATALOG_ROOT)]);
        let at = BLK_VOLUME_OMAP_ROOT as usize * BLOCK_SIZE;
        bytes[at..at + BLOCK_SIZE].copy_from_slice(&vroot);
        seal(&mut bytes[at..at + BLOCK_SIZE], 0, XID, OBJ_TYPE_BTREE);

        let at = BLK_VOLUME_OMAP as usize * BLOCK_SIZE;
        {
            let b = &mut bytes[at..at + BLOCK_SIZE];
            put_u32(b, 40, OBJ_TYPE_BTREE);
            put_u32(b, 44, OBJ_TYPE_BTREE);
            put_u64(b, 48, BLK_VOLUME_OMAP_ROOT);
        }
        seal(&mut bytes[at..at + BLOCK_SIZE], 0, XID, 0);

        let at = BLK_VOLUME_SUPERBLOCK as usize * BLOCK_SIZE;
        {
            let b = &mut bytes[at..at + BLOCK_SIZE];
            put_u32(b, 32, APSB_MAGIC);
            put_u64(b, 128, BLK_VOLUME_OMAP);
            put_u64(b, 136, CATALOG_OID);
        }
        seal(&mut bytes[at..at + BLOCK_SIZE], VOLUME_OID, XID, 0);

        let croot = omap_btree_root(&[(VOLUME_OID, XID, BLK_VOLUME_SUPERBLOCK)]);
        let at = BLK_CONTAINER_OMAP_ROOT as usize * BLOCK_SIZE;
        bytes[at..at + BLOCK_SIZE].copy_from_slice(&croot);
        seal(&mut bytes[at..at + BLOCK_SIZE], 0, XID, OBJ_TYPE_BTREE);

        let at = BLK_CONTAINER_OMAP as usize * BLOCK_SIZE;
        {
            let b = &mut bytes[at..at + BLOCK_SIZE];
            put_u32(b, 40, OBJ_TYPE_BTREE);
            put_u32(b, 44, OBJ_TYPE_BTREE);
            put_u64(b, 48, BLK_CONTAINER_OMAP_ROOT);
        }
        seal(&mut bytes[at..at + BLOCK_SIZE], 0, XID, 0);

        for (block, xid) in [(0u64, 1u64), (BLK_CHECKPOINT, XID)] {
            let at = block as usize * BLOCK_SIZE;
            let b = &mut bytes[at..at + BLOCK_SIZE];
            put_u32(b, 32, NXSB_MAGIC);
            put_u32(b, 36, BLOCK_SIZE as u32);
            put_u64(b, 40, BLOCK_COUNT);
            put_u64(b, 176, BLK_CONTAINER_OMAP);
            put_u32(b, 0x68, 2);
            put_u64(b, 0x70, 0);
            put_u32(b, 0x88, block as u32);
            put_u32(b, 0x8c, 1);
            put_u32(b, 0xC4, 1);
            put_u64(b, 0xC8, VOLUME_OID);
            seal(b, block, xid, OBJ_TYPE_NX_SUPERBLOCK);
        }
        Self { bytes, files }
    }

    fn deleted_file(&self) -> &PlannedFile {
        self.files.iter().find(|f| !f.linked).expect("fixture has a deleted file")
    }
}

fn image() -> (ApfsImage, MemoryDevice) {
    let image = ApfsImage::build();
    let device = MemoryDevice::new(image.bytes.clone());
    (image, device)
}

#[test]
fn discovers_the_container_and_its_volume() {
    let (_image, device) = image();
    let range = device.range();
    let (container, volumes) = discover_volumes(&device, range).expect("container opens");
    assert_eq!(container.block_size, 4096);
    assert_eq!(volumes.len(), 1, "fixture declares exactly one volume");
    assert_eq!(volumes[0].object_id, VOLUME_OID);
    assert_eq!(volumes[0].xid, XID);
}

#[test]
fn resolves_virtual_objects_through_both_object_maps() {
    let (_image, device) = image();
    let range = device.range();
    let (container, volumes) = discover_volumes(&device, range).unwrap();
    let volume = &volumes[0];
    let physical =
        resolve_volume_root(&device, range, &container, &volume.volume, volume.xid).expect("catalog root resolves");
    assert_eq!(physical, BLK_CATALOG_ROOT);
}

#[test]
fn indexes_inodes_directory_records_and_extents() {
    let (image, device) = image();
    let range = device.range();
    let (container, volumes) = discover_volumes(&device, range).unwrap();
    let volume = &volumes[0];
    let index = read_volume_filesystem_index(&device, range, &container, &volume.volume, volume.xid)
        .expect("catalog is readable");
    for file in &image.files {
        assert!(index.inodes.contains_key(&file.inode_id), "inode {} missing from the catalog index", file.inode_id);
    }
    let linked: Vec<_> = image.files.iter().filter(|f| f.linked).collect();
    assert_eq!(index.directories.len(), linked.len());
    let report = image.files.iter().find(|f| f.name == "report.txt").unwrap();
    let extents = index.extents.get(&(report.inode_id + 1000)).expect("report.txt has extents");
    assert!(extents.len() > 1, "report.txt should be fragmented across multiple extents");
}

#[test]
fn recovers_active_file_contents_byte_for_byte() {
    let (image, device) = image();
    let range = device.range();
    let (container, volumes) = discover_volumes(&device, range).unwrap();
    let volume = &volumes[0];
    let index = read_volume_filesystem_index(&device, range, &container, &volume.volume, volume.xid).unwrap();
    for file in image.files.iter().filter(|f| f.linked) {
        let inode = &index.inodes[&file.inode_id];
        let extents = &index.extents[&inode.private_id];
        let recovered =
            read_file_extents(&device, range, container.block_size, extents, inode.data_stream_size.unwrap())
                .expect("extents are readable");
        assert_eq!(recovered.len(), file.contents.len(), "{} recovered to the wrong length", file.name);
        assert_eq!(recovered, file.contents, "{} differs from source", file.name);
    }
}

#[test]
fn recovers_a_deleted_file_from_its_orphaned_inode() {
    let (image, device) = image();
    let range = device.range();
    let (container, volumes) = discover_volumes(&device, range).unwrap();
    let volume = &volumes[0];
    let index = read_volume_filesystem_index(&device, range, &container, &volume.volume, volume.xid).unwrap();
    let deleted = image.deleted_file();
    assert!(
        !index.directories.iter().any(|d| d.file_id == deleted.inode_id),
        "the deleted file must have no directory record"
    );
    let inode = &index.inodes[&deleted.inode_id];
    let extents = &index.extents[&inode.private_id];
    let recovered = read_file_extents(&device, range, container.block_size, extents, inode.data_stream_size.unwrap())
        .expect("deleted file extents are readable");
    assert_eq!(recovered, deleted.contents);
}

#[test]
fn apfs_end_to_end_scanning_never_modifies_the_source() {
    let (image, device) = image();
    let range = device.range();
    let before = device.snapshot();
    let (container, volumes) = discover_volumes(&device, range).unwrap();
    let _ = read_volume_filesystem_index(&device, range, &container, &volumes[0].volume, volumes[0].xid);
    assert_eq!(device.snapshot(), before, "the source image was modified");
    assert_eq!(before, image.bytes);
}

#[test]
fn a_truncated_container_does_not_panic() {
    let image = ApfsImage::build();
    for cut in [512usize, 4096, 8192, 20_000] {
        let device = MemoryDevice::new(image.bytes[..cut].to_vec());
        let Ok(range) = ByteRange::new(0, device.capacity()) else {
            continue;
        };
        let _ = discover_volumes(&device, range);
    }
}

#[test]
fn corrupted_checksums_are_rejected_rather_than_trusted() {
    let mut image = ApfsImage::build();
    let at = BLK_CATALOG_ROOT as usize * 4096;
    image.bytes[at + 100] ^= 0xFF;
    let device = MemoryDevice::new(image.bytes);
    let range = device.range();
    let (container, volumes) = discover_volumes(&device, range).unwrap();
    let result = read_volume_filesystem_index(&device, range, &container, &volumes[0].volume, volumes[0].xid);
    assert!(result.is_err(), "a block failing its Fletcher-64 checksum must not be trusted");
}

#[test]
fn recovers_every_linked_regular_file_with_its_path() {
    let (image, device) = image();
    let range = device.range();
    let (container, volumes) = discover_volumes(&device, range).unwrap();
    let index =
        read_volume_filesystem_index(&device, range, &container, &volumes[0].volume, volumes[0].xid).unwrap();
    let files = recover_regular_files(&index, &device, range, container.block_size).unwrap();
    assert_eq!(files.len(), 2);
    for file in image.files.iter().filter(|f| f.linked) {
        let found = files.iter().find(|r| r.path == format!("/{}", file.name)).expect("file recovered");
        assert_eq!(found.data, file.contents);
    }
    assert!(find_entry_by_path(&index, "/notes.txt").unwrap().is_some());
    assert!(find_entry_by_path(&index, "/absent.txt").unwrap().is_none());
    let all = recover_discovered_volumes(&device, range).unwrap();
    assert_eq!(all.len(), 2);
    assert!(all.iter().all(|(volume, _)| *volume == VOLUME_OID));
}

#[test]
fn block_zero_wins_when_newer_than_every_checkpoint() {
    let image = ApfsImage::build();
    let mut bytes = image.bytes.clone();
    {
        let b = &mut bytes[0..BLOCK_SIZE];
        // Block zero no longer sits where its ring position says, so only
        // the checkpoint at block 1 is a candidate; block zero is newer.
        put_u32(b, 0x88, 1);
        seal(b, 0, XID + 5, OBJ_TYPE_NX_SUPERBLOCK);
    }
    let device = MemoryDevice::new(bytes);
    let (_, block) = read_latest_container_superblock_with_block(&device, device.range()).unwrap();
    assert_eq!(u64::from_le_bytes(block[16..24].try_into().unwrap()), XID + 5);
    assert_eq!(u64::from_le_bytes(block[8..16].try_into().unwrap()), 0);
}

#[test]
fn a_newer_checkpoint_wins_over_block_zero() {
    let (_image, device) = image();
    let (_, block) = read_latest_container_superblock_with_block(&device, device.range()).unwrap();
    assert_eq!(u64::from_le_bytes(block[16..24].try_into().unwrap()), XID);
    assert_eq!(u64::from_le_bytes(block[8..16].try_into().unwrap()), BLK_CHECKPOINT);
}

#[test]
fn streamed_files_match_collected_files() {
    let (_, device) = image();
    let range = device.range();
    let (container, volumes) = discover_volumes(&device, range).unwrap();
    let index =
        read_volume_filesystem_index(&device, range, &container, &volumes[0].volume, volumes[0].xid).unwrap();
    let files = recover_regular_files(&index, &device, range, container.block_size).unwrap();

    let mut log = FileLog::new();
    for_each_regular_file(&index, &device, range, container.block_size, &mut log).unwrap();
    assert_eq!(log.files, files);

    let mut chunks = FileChunkLog::new();
    for_each_regular_file_chunk(&index, &device, range, container.block_size, 100, &mut chunks).unwrap();
    for file in &files {
        let mut rebuilt = Vec::new();
        for (header, offset, chunk) in chunks.entries.iter().filter(|(h, _, _)| h.path == file.path) {
            assert_eq!(header.size, file.size);
            assert_eq!(*offset as usize, rebuilt.len());
            assert!(!chunk.is_empty() && chunk.len() <= 100);
            rebuilt.extend_from_slice(chunk);
        }
        assert_eq!(rebuilt, file.data);
    }

    let all = recover_discovered_volumes(&device, range).unwrap();
    let mut volume_log = VolumeFileLog::new();
    for_each_discovered_volume_file(&device, range, &mut volume_log).unwrap();
    assert_eq!(volume_log.files, all);

    let mut volume_chunks = VolumeChunkLog::new();
    for_each_discovered_volume_file_chunk(&device, range, 100, &mut volume_chunks).unwrap();
    let streamed: Vec<u8> = volume_chunks.entries.iter().flat_map(|(_, _, _, c)| c.clone()).collect();
    let collected: Vec<u8> = all.iter().flat_map(|(_, f)| f.data.clone()).collect();
    assert_eq!(streamed, collected);
    assert!(volume_chunks.entries.iter().all(|(v, _, _, _)| *v == all[0].0));
}
