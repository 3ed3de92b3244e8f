use std::collections::BTreeMap;

use data_recovery::apfs::btree::{
    btree_entries, btree_key, parse_btree_node, ApfsBtreeEntry, ApfsBtreeNode, ApfsVariableBtreeEntry, FLAG_LEAF,
    FLAG_ROOT,
};
use data_recovery::apfs::catalog::{child_oid, ApfsCatalogRecord};
use data_recovery::apfs::checkpoint::{
    checkpoint_position, NX_XP_DESC_BASE, NX_XP_DESC_BLOCKS, NX_XP_DESC_INDEX, NX_XP_DESC_LEN, XP_DESC_FRAGMENTED,
};
use data_recovery::apfs::checksum::{fletcher64, verify_fletcher64};
use data_recovery::apfs::filesystem::{
    decode_file_extent_key, for_each_file_extent_chunk, ChunkLog, index_catalog_records, read_file_extents,
    ApfsDirectoryEntry, ApfsFileExtent, ApfsFilesystemIndex,
};
use data_recovery::apfs::fsrecord::{
    decode_dir_record_value, decode_file_extent_value, decode_inode_value, decode_jkey, extent_is_sparse,
    extent_length, is_regular_file_mode, is_symlink_mode, ApfsDirRecordValue, APFS_TYPE_FILE_EXTENT, OBJ_ID_MASK,
    OBJ_TYPE_SHIFT, S_IFLNK, S_IFMT, S_IFREG,
};
use data_recovery::apfs::omap::{
    parse_object_map, parse_object_map_key, parse_object_map_value, ApfsObjectMapKey, OMAP_VAL_DELETED,
};
use data_recovery::apfs::omap_lookup::compare_key;
use data_recovery::apfs::recovery::{
    for_each_discovered_volume_file, for_each_discovered_volume_file_chunk, for_each_regular_file_chunk,
    recover_discovered_volumes, FileChunkLog, VolumeChunkLog, VolumeFileLog,
};
use data_recovery::apfs::snapshot::{index_snapshot_records, APFS_TYPE_SNAP_METADATA, APFS_TYPE_SNAP_NAME};
use data_recovery::apfs::volume::{
    container_volume_oids, resolve_volume_root_from_superblock, ApfsDiscoveredVolume, NX_FS_OID_OFFSET,
    NX_MAX_FILE_SYSTEMS_OFFSET,
};
use data_recovery::apfs::xattr::{
    decode_xattr_key, decode_xattr_value, index_xattrs, XATTR_DATA_EMBEDDED, XATTR_DATA_STREAM,
};
use data_recovery::apfs::{
    parse_container_superblock, parse_object_header, parse_volume_superblock, u32_at, u64_at, ApfsContainer,
    ApfsObjectHeader, ApfsVolume, APSB_MAGIC, NXSB_MAGIC,
};
use data_recovery::device::MemoryDevice;
use data_recovery::range::ByteRange;

fn node() -> Vec<u8> {
    let mut data = vec![0u8; 512];
    data[32..34].copy_from_slice(&(FLAG_LEAF | FLAG_ROOT).to_le_bytes());
    data[34..36].copy_from_slice(&1u16.to_le_bytes());
    data[36..40].copy_from_slice(&2u32.to_le_bytes());
    data[40..42].copy_from_slice(&64u16.to_le_bytes());
    data[42..44].copy_from_slice(&128u16.to_le_bytes());
    data
}

fn jkey(ty: u64, oid: u64) -> Vec<u8> {
    ((ty << 60) | oid).to_le_bytes().to_vec()
}

fn volume(omap_oid: u64, root_tree_oid: u64) -> ApfsVolume {
    ApfsVolume {
        fs_index: 0,
        features: 0,
        read_only_compatible_features: 0,
        incompatible_features: 0,
        unmount_time: 0,
        reserve_blocks: 0,
        quota_blocks: 0,
        allocated_blocks: 0,
        fs_reserve_blocks: 0,
        omap_oid,
        root_tree_oid,
        extentref_tree_oid: 0,
        snap_meta_tree_oid: 0,
    }
}

fn sixteen_byte_image() -> MemoryDevice {
    MemoryDevice::new(vec![0, 0, 0, 0, 0x41, 0x42, 0x43, 0x44, 0, 0, 0, 0, 0x51, 0x52, 0x53, 0x54])
}

fn three_extents() -> Vec<ApfsFileExtent> {
    vec![
        ApfsFileExtent { logical_offset: 0, length: 4, physical_block: 1, crypto_id: 0, sparse: false },
        ApfsFileExtent { logical_offset: 4, length: 4, physical_block: 0, crypto_id: 0, sparse: true },
        ApfsFileExtent { logical_offset: 8, length: 4, physical_block: 3, crypto_id: 0, sparse: false },
    ]
}

fn empty_index() -> ApfsFilesystemIndex {
    ApfsFilesystemIndex {
        directories: Vec::new(),
        inodes: BTreeMap::new(),
        extents: BTreeMap::new(),
        xattrs: BTreeMap::new(),
    }
}

#[test]
fn parses_node_header_and_flags() {
    let parsed = parse_btree_node(&node()).unwrap();
    assert!(parsed.is_leaf());
    assert!(parsed.is_root());
    assert_eq!(parsed.level, 1);
    assert_eq!(parsed.key_count, 2);
}

#[test]
fn parses_and_bounds_entries() {
    let mut data = node();
    data[56..58].copy_from_slice(&64u16.to_le_bytes());
    data[58..60].copy_from_slice(&72u16.to_le_bytes());
    data[60..62].copy_from_slice(&80u16.to_le_bytes());
    data[62..64].copy_from_slice(&88u16.to_le_bytes());
    let entries = btree_entries(&data).unwrap();
    assert_eq!(
        entries,
        vec![ApfsBtreeEntry { key_offset: 64, value_offset: 72 }, ApfsBtreeEntry { key_offset: 80, value_offset: 88 }]
    );
    assert_eq!(btree_key(&data, entries[0], Some(entries[1])).unwrap(), &data[64..72]);
}

#[test]
fn rejects_entry_outside_table() {
    let mut data = node();
    data[56..58].copy_from_slice(&300u16.to_le_bytes());
    data[58..60].copy_from_slice(&72u16.to_le_bytes());
    assert!(btree_entries(&data).is_err());
}

#[test]
fn rejects_value_before_key() {
    let mut data = node();
    data[56..58].copy_from_slice(&100u16.to_le_bytes());
    data[58..60].copy_from_slice(&90u16.to_le_bytes());
    assert!(btree_entries(&data).is_err());
}

#[test]
fn rejects_truncated_node() {
    assert!(parse_btree_node(&[0u8; 55]).is_err());
}

#[test]
fn rejects_non_oid_branch_values() {
    let data = ApfsVariableBtreeEntry { key: vec![0u8; 8], value: vec![0u8; 7] };
    assert!(child_oid(&data).is_err());
}

#[test]
fn decodes_little_endian_child_oid() {
    let oid = 0x1122_3344_5566_7788u64;
    let data = ApfsVariableBtreeEntry { key: vec![0u8; 8], value: oid.to_le_bytes().to_vec() };
    assert_eq!(child_oid(&data).unwrap(), oid);
}

#[test]
fn rejects_unaligned_object() {
    assert!(fletcher64(&[0u8; 10]).is_err());
}

#[test]
fn checksum_round_trip() {
    let mut object = vec![0u8; 64];
    object[8..12].copy_from_slice(&0x1122_3344u32.to_le_bytes());
    object[12..16].copy_from_slice(&0x5566_7788u32.to_le_bytes());
    let checksum = fletcher64(&object).unwrap();
    object[..8].copy_from_slice(&checksum.to_le_bytes());
    assert_eq!(fletcher64(&object).unwrap(), checksum);
    assert!(verify_fletcher64(&object).is_ok());
}

#[test]
fn detects_corruption() {
    let mut object = vec![0u8; 64];
    let checksum = fletcher64(&object).unwrap();
    object[..8].copy_from_slice(&checksum.to_le_bytes());
    object[20] = 1;
    assert!(verify_fletcher64(&object).is_err());
}

#[test]
fn checksum_of_a_known_object() {
    // Words 1 and 2 after the checksum field give running sums 3 and 4, so
    // the lower half is 3 + 4 and the upper half 3 + 7.
    let mut object = vec![0u8; 16];
    object[8..12].copy_from_slice(&1u32.to_le_bytes());
    object[12..16].copy_from_slice(&2u32.to_le_bytes());
    assert_eq!(fletcher64(&object).unwrap(), 7 | (10u64 << 32));
}

#[test]
fn checkpoint_geometry_offsets_match_nx_superblock_layout() {
    let mut block = vec![0u8; 512];
    block[NX_XP_DESC_BLOCKS..NX_XP_DESC_BLOCKS + 4].copy_from_slice(&16u32.to_le_bytes());
    block[NX_XP_DESC_BASE..NX_XP_DESC_BASE + 8].copy_from_slice(&8u64.to_le_bytes());
    block[NX_XP_DESC_INDEX..NX_XP_DESC_INDEX + 4].copy_from_slice(&4u32.to_le_bytes());
    block[NX_XP_DESC_LEN..NX_XP_DESC_LEN + 4].copy_from_slice(&12u32.to_le_bytes());
    assert_eq!(u32_at(&block, NX_XP_DESC_BLOCKS), 16);
    assert_eq!(u64_at(&block, NX_XP_DESC_BASE), 8);
    assert_eq!(u32_at(&block, NX_XP_DESC_INDEX), 4);
    assert_eq!(u32_at(&block, NX_XP_DESC_LEN), 12);
}

#[test]
fn checkpoint_superblock_position_is_final_block_of_window() {
    let desc_blocks = 64u64;
    let desc_index = 50u64;
    let desc_len = 15u64;
    let expected = (desc_index + desc_len - 1) % desc_blocks;
    assert_eq!(expected, 0);
    assert_eq!(checkpoint_position(desc_index, desc_len, desc_blocks), expected);
}

#[test]
fn checkpoint_superblock_position_rejects_wrong_index() {
    let desc_blocks = 64u64;
    let desc_index = 10u64;
    let desc_len = 8u64;
    let scanned_index = 20u64;
    let expected = (desc_index + desc_len - 1) % desc_blocks;
    assert_ne!(expected, scanned_index);
    assert_ne!(checkpoint_position(desc_index, desc_len, desc_blocks), scanned_index);
}

#[test]
fn fragmented_flag_is_detected() {
    let mut block = vec![0u8; 512];
    block[NX_XP_DESC_BLOCKS..NX_XP_DESC_BLOCKS + 4].copy_from_slice(&XP_DESC_FRAGMENTED.to_le_bytes());
    assert_ne!(u32_at(&block, NX_XP_DESC_BLOCKS) & XP_DESC_FRAGMENTED, 0);
}

#[test]
fn recognizes_regular_file_mode() {
    assert_eq!(0o100644u16 & S_IFMT, S_IFREG);
    assert_ne!(0o040755u16 & S_IFMT, S_IFREG);
    assert!(is_regular_file_mode(0o100644));
    assert!(!is_regular_file_mode(0o040755));
}

#[test]
fn recognizes_symlink_mode() {
    assert_eq!(0o120777u16 & S_IFMT, S_IFLNK);
    assert_ne!(0o100644u16 & S_IFMT, S_IFLNK);
    assert!(is_symlink_mode(0o120777));
    assert!(!is_symlink_mode(0o100644));
}

#[test]
fn rejects_missing_volume_omap_before_device_access() {
    let volume = volume(0, 1);
    assert_eq!(volume.omap_oid, 0);
}

#[test]
fn rejects_invalid_superblock_object_identity_before_omap_access() {
    let mut block = vec![0u8; 512];
    block[32..36].copy_from_slice(&0x4253_5041u32.to_le_bytes());
    block[128..136].copy_from_slice(&1u64.to_le_bytes());
    block[136..144].copy_from_slice(&2u64.to_le_bytes());
    let device = MemoryDevice::new(Vec::new());
    let container = ApfsContainer {
        block_size: 512,
        block_count: 1,
        features: 0,
        read_only_compatible_features: 0,
        incompatible_features: 0,
        omap_oid: 0,
    };
    assert!(resolve_volume_root_from_superblock(&device, ByteRange::new(0, 512).unwrap(), &container, &block).is_err());
}

#[test]
fn discovery_result_carries_transaction_context() {
    let volume = volume(7, 8);
    let discovered = ApfsDiscoveredVolume { object_id: 9, xid: 10, volume };
    assert_eq!(discovered.xid, 10);
    assert_eq!(discovered.object_id, 9);
}

#[test]
fn decodes_extent_key() {
    let mut key = jkey(8, 55);
    key.extend_from_slice(&4096u64.to_le_bytes());
    assert_eq!(decode_file_extent_key(&key).unwrap(), (55, 4096));
}

#[test]
fn rejects_extent_key_with_wrong_type() {
    let mut key = jkey(3, 55);
    key.extend_from_slice(&0u64.to_le_bytes());
    assert!(decode_file_extent_key(&key).is_err());
}

#[test]
fn joins_catalog_records_and_sorts_extents() {
    let mut dir_key = jkey(9, 2);
    dir_key.extend_from_slice(&5u16.to_le_bytes());
    dir_key.extend_from_slice(b"file\0");
    let mut dir_value = vec![0u8; 18];
    dir_value[0..8].copy_from_slice(&42u64.to_le_bytes());
    let inode_key = jkey(3, 42);
    let mut inode_value = vec![0u8; 92];
    inode_value[8..16].copy_from_slice(&77u64.to_le_bytes());
    let mut extent_key_a = jkey(8, 77);
    extent_key_a.extend_from_slice(&8192u64.to_le_bytes());
    let mut extent_value_a = vec![0u8; 24];
    extent_value_a[0..8].copy_from_slice(&4096u64.to_le_bytes());
    extent_value_a[8..16].copy_from_slice(&100u64.to_le_bytes());
    let mut extent_key_b = jkey(8, 77);
    extent_key_b.extend_from_slice(&0u64.to_le_bytes());
    let mut extent_value_b = vec![0u8; 24];
    extent_value_b[0..8].copy_from_slice(&4096u64.to_le_bytes());
    extent_value_b[8..16].copy_from_slice(&99u64.to_le_bytes());
    let records = vec![
        ApfsCatalogRecord { key: dir_key, value: dir_value },
        ApfsCatalogRecord { key: inode_key, value: inode_value },
        ApfsCatalogRecord { key: extent_key_a, value: extent_value_a },
        ApfsCatalogRecord { key: extent_key_b, value: extent_value_b },
    ];
    let index = index_catalog_records(&records).unwrap();
    assert_eq!(index.directories[0].file_id, 42);
    assert_eq!(index.inodes[&42].private_id, 77);
    assert_eq!(index.extents[&77][0].logical_offset, 0);
    assert_eq!(index.extents[&77][1].physical_block, 100);
    assert!(index.xattrs.is_empty());
    assert_eq!(index.path_for_entry(&index.directories[0]).unwrap(), "/file");
}

#[test]
fn indexes_xattrs_with_their_inode() {
    let mut key = jkey(4, 42);
    key.extend_from_slice(&7u16.to_le_bytes());
    key.extend_from_slice(b"author\0");
    let value = [XATTR_DATA_EMBEDDED as u8, 0, 5, 0, b'a', b'l', b'i', b'c', b'e'];
    let index = index_catalog_records(&[ApfsCatalogRecord { key, value: value.to_vec() }]).unwrap();
    let entry = ApfsDirectoryEntry { parent_id: 0, file_id: 42, name: "file".into(), flags: 0 };
    assert_eq!(index.xattrs_for_entry(&entry)[0].name, "author");
    assert_eq!(index.xattrs_for_entry(&entry)[0].data, b"alice");
}

#[test]
fn rejects_directory_cycle() {
    let a = ApfsDirectoryEntry { parent_id: 3, file_id: 2, name: "a".into(), flags: 0 };
    let b = ApfsDirectoryEntry { parent_id: 2, file_id: 3, name: "b".into(), flags: 0 };
    let index = ApfsFilesystemIndex {
        directories: vec![a.clone(), b],
        inodes: BTreeMap::new(),
        extents: BTreeMap::new(),
        xattrs: BTreeMap::new(),
    };
    assert!(index.path_for_entry(&a).is_err());
}

#[test]
fn nested_entries_get_their_full_path() {
    let dir = ApfsDirectoryEntry { parent_id: 2, file_id: 20, name: "docs".into(), flags: 0 };
    let file = ApfsDirectoryEntry { parent_id: 20, file_id: 21, name: "a.txt".into(), flags: 0 };
    let index = ApfsFilesystemIndex {
        directories: vec![dir, file.clone()],
        inodes: BTreeMap::new(),
        extents: BTreeMap::new(),
        xattrs: BTreeMap::new(),
    };
    assert_eq!(index.path_for_entry(&file).unwrap(), "/docs/a.txt");
}

#[test]
fn rejects_untrusted_file_size_before_allocation() {
    let image = MemoryDevice::new(vec![0u8; 16]);
    let result = read_file_extents(&image, ByteRange::new(0, 16).unwrap(), 4, &[], u64::MAX);
    assert!(result.is_err());
}

#[test]
fn reconstructs_sparse_and_physical_extents() {
    let image = sixteen_byte_image();
    let output = read_file_extents(&image, ByteRange::new(0, 16).unwrap(), 4, &three_extents(), 12).unwrap();
    assert_eq!(output, b"ABCD\0\0\0\0QRST");
}

#[test]
fn streams_extent_chunks_without_full_file_allocation() {
    let image = sixteen_byte_image();
    let mut sink = ChunkLog::new();
    for_each_file_extent_chunk(&image, ByteRange::new(0, 16).unwrap(), 4, &three_extents(), 12, 2, &mut sink).unwrap();
    let chunks = sink.entries;
    assert_eq!(
        chunks,
        vec![
            (0, b"AB".to_vec()),
            (2, b"CD".to_vec()),
            (4, vec![0, 0]),
            (6, vec![0, 0]),
            (8, b"QR".to_vec()),
            (10, b"ST".to_vec())
        ]
    );
}

#[test]
fn rejects_invalid_chunk_size() {
    let image = MemoryDevice::new(vec![0u8; 16]);
    assert!(for_each_file_extent_chunk(&image, ByteRange::new(0, 16).unwrap(), 4, &[], 0, 0, &mut ChunkLog::new()).is_err());
}

#[test]
fn rejects_overlapping_or_encrypted_extents() {
    let image = MemoryDevice::new(vec![0u8; 16]);
    let overlap = vec![
        ApfsFileExtent { logical_offset: 0, length: 8, physical_block: 0, crypto_id: 0, sparse: true },
        ApfsFileExtent { logical_offset: 4, length: 4, physical_block: 0, crypto_id: 0, sparse: true },
    ];
    assert!(read_file_extents(&image, ByteRange::new(0, 16).unwrap(), 4, &overlap, 8).is_err());
    let encrypted = vec![ApfsFileExtent { logical_offset: 0, length: 4, physical_block: 0, crypto_id: 1, sparse: false }];
    assert!(read_file_extents(&image, ByteRange::new(0, 16).unwrap(), 4, &encrypted, 4).is_err());
}

#[test]
fn rejects_zero_chunk_size() {
    let device = MemoryDevice::new(Vec::new());
    let result = for_each_regular_file_chunk(
        &empty_index(),
        &device,
        ByteRange::new(0, 0).unwrap(),
        4096,
        0,
        &mut FileChunkLog::new(),
    );
    assert!(result.is_err());
}

#[test]
fn decodes_jkey_object_and_type() {
    let packed = (8u64 << OBJ_TYPE_SHIFT) | 0x1234;
    let key = decode_jkey(&packed.to_le_bytes()).unwrap();
    assert_eq!(key.object_id, 0x1234);
    assert_eq!(key.record_type, APFS_TYPE_FILE_EXTENT);
}

#[test]
fn decodes_inode_fixed_value() {
    let mut data = vec![0u8; 92];
    for (offset, value) in [(0, 1u64), (8, 2), (16, 3), (24, 4), (32, 5), (40, 6), (48, 7)] {
        data[offset..offset + 8].copy_from_slice(&value.to_le_bytes());
    }
    data[56..60].copy_from_slice(&8u32.to_le_bytes());
    data[68..72].copy_from_slice(&9u32.to_le_bytes());
    data[72..76].copy_from_slice(&10u32.to_le_bytes());
    data[76..80].copy_from_slice(&11u32.to_le_bytes());
    data[80..82].copy_from_slice(&0o100644u16.to_le_bytes());
    let inode = decode_inode_value(&data).unwrap();
    assert_eq!(inode.parent_id, 1);
    assert_eq!(inode.private_id, 2);
    assert_eq!(inode.nchildren_or_nlink, 8);
    assert_eq!(inode.bsd_flags, 9);
    assert_eq!(inode.owner, 10);
    assert_eq!(inode.group, 11);
    assert_eq!(inode.mode, 0o100644);
    assert_eq!(inode.data_stream_size, None);
}

#[test]
fn decodes_dir_record_value() {
    let mut data = vec![0u8; 18];
    data[0..8].copy_from_slice(&42u64.to_le_bytes());
    data[8..16].copy_from_slice(&43u64.to_le_bytes());
    data[16..18].copy_from_slice(&7u16.to_le_bytes());
    assert_eq!(decode_dir_record_value(&data).unwrap(), ApfsDirRecordValue { file_id: 42, date_added: 43, flags: 7 });
}

#[test]
fn decodes_file_extent_and_sparse_state() {
    let mut data = vec![0u8; 24];
    data[0..8].copy_from_slice(&(0x0100_0000_0000_1000u64).to_le_bytes());
    data[8..16].copy_from_slice(&0u64.to_le_bytes());
    data[16..24].copy_from_slice(&99u64.to_le_bytes());
    let extent = decode_file_extent_value(&data).unwrap();
    assert_eq!(extent_length(extent.length_and_flags), 0x1000);
    assert!(extent_is_sparse(&extent));
    assert_eq!(extent.crypto_id, 99);
}

#[test]
fn rejects_truncated_values() {
    assert!(decode_inode_value(&[0u8; 91]).is_err());
    assert!(decode_dir_record_value(&[0u8; 17]).is_err());
    assert!(decode_file_extent_value(&[0u8; 23]).is_err());
}

#[test]
fn parses_object_header() {
    let mut block = vec![0u8; 32];
    block[0..8].copy_from_slice(&1u64.to_le_bytes());
    block[8..16].copy_from_slice(&2u64.to_le_bytes());
    block[16..24].copy_from_slice(&3u64.to_le_bytes());
    block[24..28].copy_from_slice(&4u32.to_le_bytes());
    block[28..32].copy_from_slice(&5u32.to_le_bytes());
    assert_eq!(
        parse_object_header(&block).unwrap(),
        ApfsObjectHeader { checksum: 1, oid: 2, xid: 3, object_type: 4, flags: 5 }
    );
}

#[test]
fn parses_container_geometry_and_omap_oid() {
    let mut block = vec![0u8; 512];
    block[32..36].copy_from_slice(&NXSB_MAGIC.to_le_bytes());
    block[36..40].copy_from_slice(&4096u32.to_le_bytes());
    block[40..48].copy_from_slice(&1024u64.to_le_bytes());
    block[48..56].copy_from_slice(&7u64.to_le_bytes());
    block[56..64].copy_from_slice(&8u64.to_le_bytes());
    block[64..72].copy_from_slice(&9u64.to_le_bytes());
    block[176..184].copy_from_slice(&99u64.to_le_bytes());
    let parsed = parse_container_superblock(&block).unwrap();
    assert_eq!(parsed.block_size, 4096);
    assert_eq!(parsed.block_count, 1024);
    assert_eq!(parsed.omap_oid, 99);
}

#[test]
fn parses_volume_superblock_navigation_roots() {
    let mut block = vec![0u8; 512];
    block[32..36].copy_from_slice(&APSB_MAGIC.to_le_bytes());
    block[36..40].copy_from_slice(&3u32.to_le_bytes());
    block[40..48].copy_from_slice(&7u64.to_le_bytes());
    block[48..56].copy_from_slice(&8u64.to_le_bytes());
    block[56..64].copy_from_slice(&9u64.to_le_bytes());
    block[64..72].copy_from_slice(&10u64.to_le_bytes());
    block[72..80].copy_from_slice(&11u64.to_le_bytes());
    block[80..88].copy_from_slice(&12u64.to_le_bytes());
    block[88..96].copy_from_slice(&13u64.to_le_bytes());
    block[96..104].copy_from_slice(&14u64.to_le_bytes());
    block[128..136].copy_from_slice(&18u64.to_le_bytes());
    block[136..144].copy_from_slice(&15u64.to_le_bytes());
    block[144..152].copy_from_slice(&16u64.to_le_bytes());
    block[152..160].copy_from_slice(&17u64.to_le_bytes());
    let parsed = parse_volume_superblock(&block).unwrap();
    assert_eq!(parsed.fs_index, 3);
    assert_eq!(parsed.features, 7);
    assert_eq!(parsed.read_only_compatible_features, 8);
    assert_eq!(parsed.incompatible_features, 9);
    assert_eq!(parsed.unmount_time, 10);
    assert_eq!(parsed.reserve_blocks, 11);
    assert_eq!(parsed.quota_blocks, 12);
    assert_eq!(parsed.allocated_blocks, 13);
    assert_eq!(parsed.fs_reserve_blocks, 14);
    assert_eq!(parsed.omap_oid, 18);
    assert_eq!(parsed.root_tree_oid, 15);
    assert_eq!(parsed.extentref_tree_oid, 16);
    assert_eq!(parsed.snap_meta_tree_oid, 17);
}

#[test]
fn rejects_wrong_volume_magic() {
    let mut block = vec![0u8; 512];
    block[32..36].copy_from_slice(&NXSB_MAGIC.to_le_bytes());
    assert!(parse_volume_superblock(&block).is_err());
}

#[test]
fn rejects_truncated_volume_superblock() {
    assert!(parse_volume_superblock(&[0u8; 159]).is_err());
}

#[test]
fn rejects_invalid_block_size() {
    let mut block = vec![0u8; 512];
    block[32..36].copy_from_slice(&NXSB_MAGIC.to_le_bytes());
    block[36..40].copy_from_slice(&3000u32.to_le_bytes());
    block[40..48].copy_from_slice(&1u64.to_le_bytes());
    assert!(parse_container_superblock(&block).is_err());
}

#[test]
fn parses_object_map_metadata() {
    let mut data = vec![0u8; 96];
    data[32..36].copy_from_slice(&7u32.to_le_bytes());
    data[36..40].copy_from_slice(&3u32.to_le_bytes());
    data[40..44].copy_from_slice(&0x4000_0002u32.to_le_bytes());
    data[44..48].copy_from_slice(&0x8000_0002u32.to_le_bytes());
    data[48..56].copy_from_slice(&42u64.to_le_bytes());
    data[56..64].copy_from_slice(&43u64.to_le_bytes());
    data[64..72].copy_from_slice(&44u64.to_le_bytes());
    data[72..80].copy_from_slice(&45u64.to_le_bytes());
    data[80..88].copy_from_slice(&46u64.to_le_bytes());
    data[88..96].copy_from_slice(&47u64.to_le_bytes());
    let omap = parse_object_map(&data).unwrap();
    assert_eq!(omap.tree_oid, 42);
    assert_eq!(omap.snapshot_tree_oid, 43);
    assert_eq!(omap.min_oid, 47);
}

#[test]
fn parses_key_and_value() {
    let mut key = [0u8; 16];
    key[0..8].copy_from_slice(&9u64.to_le_bytes());
    key[8..16].copy_from_slice(&10u64.to_le_bytes());
    assert_eq!(parse_object_map_key(&key).unwrap(), ApfsObjectMapKey { oid: 9, xid: 10 });
    let mut value = [0u8; 16];
    value[0..4].copy_from_slice(&OMAP_VAL_DELETED.to_le_bytes());
    value[4..8].copy_from_slice(&4096u32.to_le_bytes());
    value[8..16].copy_from_slice(&99u64.to_le_bytes());
    let parsed = parse_object_map_value(&value).unwrap();
    assert!(parsed.is_deleted());
    assert_eq!(parsed.size, 4096);
    assert_eq!(parsed.physical_address, 99);
}

#[test]
fn rejects_invalid_tree_type_and_zero_root() {
    let mut data = vec![0u8; 96];
    data[40..44].copy_from_slice(&1u32.to_le_bytes());
    data[44..48].copy_from_slice(&2u32.to_le_bytes());
    assert!(parse_object_map(&data).is_err());
    data[40..44].copy_from_slice(&0x4000_0002u32.to_le_bytes());
    data[44..48].copy_from_slice(&0x4000_0002u32.to_le_bytes());
    assert!(parse_object_map(&data).is_err());
}

#[test]
fn compares_object_map_keys_in_oid_then_xid_order() {
    assert_eq!(compare_key(&[1u8; 16], ApfsObjectMapKey { oid: 2, xid: 1 }).unwrap(), std::cmp::Ordering::Less);
    let mut key = [0u8; 16];
    key[0..8].copy_from_slice(&7u64.to_le_bytes());
    key[8..16].copy_from_slice(&9u64.to_le_bytes());
    assert_eq!(compare_key(&key, ApfsObjectMapKey { oid: 7, xid: 9 }).unwrap(), std::cmp::Ordering::Equal);
}

#[test]
fn places_the_target_after_a_smaller_key() {
    let mut key = [0u8; 16];
    key[0..8].copy_from_slice(&1u64.to_le_bytes());
    key[8..16].copy_from_slice(&1u64.to_le_bytes());
    assert_eq!(compare_key(&key, ApfsObjectMapKey { oid: 2, xid: 1 }).unwrap(), std::cmp::Ordering::Greater);
    assert_eq!(compare_key(&key, ApfsObjectMapKey { oid: 1, xid: 0 }).unwrap(), std::cmp::Ordering::Less);
    assert!(compare_key(&key[..15], ApfsObjectMapKey { oid: 7, xid: 9 }).is_err());
}

#[test]
fn indexes_snapshot_metadata_and_name() {
    let snap_key = |record_type: u8, object_id: u64| -> Vec<u8> {
        ((u64::from(record_type) << OBJ_TYPE_SHIFT) | (object_id & OBJ_ID_MASK)).to_le_bytes().to_vec()
    };
    let mut value = vec![0u8; 56];
    value[0..8].copy_from_slice(&17u64.to_le_bytes());
    value[8..16].copy_from_slice(&18u64.to_le_bytes());
    value[16..24].copy_from_slice(&19u64.to_le_bytes());
    value[24..32].copy_from_slice(&20u64.to_le_bytes());
    value[32..40].copy_from_slice(&21u64.to_le_bytes());
    value[40..44].copy_from_slice(&22u32.to_le_bytes());
    value[44..48].copy_from_slice(&23u32.to_le_bytes());
    value[48..50].copy_from_slice(&6u16.to_le_bytes());
    value[50..56].copy_from_slice(b"snap\0\0");
    let metadata = ApfsCatalogRecord { key: snap_key(APFS_TYPE_SNAP_METADATA, 99), value };
    let mut name_key = snap_key(APFS_TYPE_SNAP_NAME, OBJ_ID_MASK);
    name_key.extend_from_slice(&6u16.to_le_bytes());
    name_key.extend_from_slice(b"named\0");
    let name = ApfsCatalogRecord { key: name_key, value: 99u64.to_le_bytes().to_vec() };
    let snapshots = index_snapshot_records(&[metadata, name]).unwrap();
    assert_eq!(snapshots[0].xid, 99);
    assert_eq!(snapshots[0].sblock_oid, 18);
    assert_eq!(snapshots[0].name.as_deref(), Some("named"));
}

#[test]
fn rejects_oversized_snapshot_name() {
    let mut key = ((u64::from(APFS_TYPE_SNAP_NAME) << OBJ_TYPE_SHIFT) | OBJ_ID_MASK).to_le_bytes().to_vec();
    key.extend_from_slice(&5000u16.to_le_bytes());
    let record = ApfsCatalogRecord { key, value: 1u64.to_le_bytes().to_vec() };
    assert!(index_snapshot_records(&[record]).is_err());
}

#[test]
fn decodes_advertised_volume_oids_without_treating_them_as_addresses() {
    let mut block = vec![0u8; 1024];
    block[32..36].copy_from_slice(&0x4253_584eu32.to_le_bytes());
    block[36..40].copy_from_slice(&4096u32.to_le_bytes());
    block[40..48].copy_from_slice(&1024u64.to_le_bytes());
    block[176..184].copy_from_slice(&10u64.to_le_bytes());
    block[NX_MAX_FILE_SYSTEMS_OFFSET..NX_MAX_FILE_SYSTEMS_OFFSET + 4].copy_from_slice(&3u32.to_le_bytes());
    block[NX_FS_OID_OFFSET..NX_FS_OID_OFFSET + 8].copy_from_slice(&101u64.to_le_bytes());
    block[NX_FS_OID_OFFSET + 8..NX_FS_OID_OFFSET + 16].copy_from_slice(&202u64.to_le_bytes());
    block[NX_FS_OID_OFFSET + 16..NX_FS_OID_OFFSET + 24].copy_from_slice(&303u64.to_le_bytes());
    assert_eq!(container_volume_oids(&block).unwrap(), vec![101, 202, 303]);
}

#[test]
fn zero_volume_slots_are_ignored() {
    let mut block = vec![0u8; 1024];
    block[32..36].copy_from_slice(&0x4253_584eu32.to_le_bytes());
    block[36..40].copy_from_slice(&4096u32.to_le_bytes());
    block[40..48].copy_from_slice(&1024u64.to_le_bytes());
    block[176..184].copy_from_slice(&10u64.to_le_bytes());
    block[NX_MAX_FILE_SYSTEMS_OFFSET..NX_MAX_FILE_SYSTEMS_OFFSET + 4].copy_from_slice(&2u32.to_le_bytes());
    block[NX_FS_OID_OFFSET + 8..NX_FS_OID_OFFSET + 16].copy_from_slice(&55u64.to_le_bytes());
    assert_eq!(container_volume_oids(&block).unwrap(), vec![55]);
}

#[test]
fn decodes_embedded_xattr() {
    let mut key = jkey(4, 42);
    key.extend_from_slice(&6u16.to_le_bytes());
    key.extend_from_slice(b"author\0");
    let value = [XATTR_DATA_EMBEDDED as u8, 0, 5, 0, b'a', b'l', b'i', b'c', b'e'];
    let indexed = index_xattrs(&[ApfsCatalogRecord { key, value: value.to_vec() }]).unwrap();
    assert_eq!(indexed[&42][0].name, "author");
    assert_eq!(indexed[&42][0].data, b"alice");
}

#[test]
fn rejects_stream_xattr_for_inline_decoder() {
    let value = [XATTR_DATA_STREAM as u8, 0, 0, 0];
    assert!(decode_xattr_value(&value).is_err());
}

#[test]
fn rejects_truncated_xattr_key() {
    let mut key = jkey(4, 42);
    key.extend_from_slice(&10u16.to_le_bytes());
    key.extend_from_slice(b"short\0");
    assert!(decode_xattr_key(&key).is_err());
}

#[test]
fn streaming_recovery_rejects_a_zero_chunk_size() {
    let device = MemoryDevice::new(vec![0u8; 4096]);
    let range = ByteRange::new(0, 4096).unwrap();
    let result = for_each_discovered_volume_file_chunk(&device, range, 0, &mut VolumeChunkLog::new());
    assert!(result.is_err(), "a zero chunk size must be refused");
}

#[test]
fn recovery_refuses_a_container_that_does_not_parse() {
    let device = MemoryDevice::new(vec![0u8; 4096]);
    let range = ByteRange::new(0, 4096).unwrap();
    assert!(recover_discovered_volumes(&device, range).is_err());
    assert!(for_each_discovered_volume_file(&device, range, &mut VolumeFileLog::new()).is_err());
}

fn node_with_flags(flags: u16) -> ApfsBtreeNode {
    ApfsBtreeNode {
        flags,
        level: 0,
        key_count: 0,
        table_space_offset: 0,
        table_space_length: 0,
        free_space_offset: 0,
        free_space_length: 0,
        key_free_list_offset: 0,
        key_free_list_length: 0,
        value_free_list_offset: 0,
        value_free_list_length: 0,
    }
}

#[test]
fn node_flags_use_root_one_and_leaf_two() {
    assert!(node_with_flags(0x0003).is_leaf() && node_with_flags(0x0003).is_root());
    assert!(node_with_flags(0x0002).is_leaf() && !node_with_flags(0x0002).is_root());
    assert!(node_with_flags(0x0001).is_root() && !node_with_flags(0x0001).is_leaf());
}

#[test]
fn an_extent_reaching_past_the_file_size_is_cut_at_the_file_end() {
    let image = MemoryDevice::new(vec![0u8; 16]);
    let hole = ApfsFileExtent { logical_offset: 0, length: 8, physical_block: 0, crypto_id: 0, sparse: true };
    assert_eq!(read_file_extents(&image, ByteRange::new(0, 16).unwrap(), 4, &[hole], 4).unwrap(), vec![0u8; 4]);
    let mut sink = ChunkLog::new();
    for_each_file_extent_chunk(&image, ByteRange::new(0, 16).unwrap(), 4, &[hole], 4, 2, &mut sink).unwrap();
    assert_eq!(sink.entries, vec![(0, vec![0, 0]), (2, vec![0, 0])]);
}

#[test]
fn every_single_word_change_is_caught_but_the_zero_swap() {
    let mut object = vec![0u8; 32];
    object[8..12].copy_from_slice(&0x1122_3344u32.to_le_bytes());
    object[16..20].copy_from_slice(&0xFFFF_FFFFu32.to_le_bytes());
    let checksum = fletcher64(&object).unwrap();
    object[..8].copy_from_slice(&checksum.to_le_bytes());
    assert!(verify_fletcher64(&object).is_ok());
    for word in 0..6 {
        for value in [0u32, 1, 0x1122_3345, 0x8000_0000, 0xFFFF_FFFE] {
            let mut changed = object.clone();
            let at = 8 + 4 * word;
            let old = u32::from_le_bytes(changed[at..at + 4].try_into().unwrap());
            if value == old || (old == 0xFFFF_FFFF && value == 0) {
                continue;
            }
            changed[at..at + 4].copy_from_slice(&value.to_le_bytes());
            assert!(verify_fletcher64(&changed).is_err(), "word {word} set to {value:#x}");
        }
    }
    let mut swapped = object.clone();
    swapped[16..20].copy_from_slice(&0u32.to_le_bytes());
    assert!(verify_fletcher64(&swapped).is_ok());
}
