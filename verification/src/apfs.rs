//! APFS recovery: container and volume superblocks, checkpoints, object
//! maps, B-tree nodes and filesystem records.

use vstd::prelude::*;
use crate::bytes::{le_u32, le_u64, spec_le_u32, spec_le_u64};
use crate::device::{read_exact, readable, span, BlockDevice};
use crate::fat32::{is_pow2, pow2_u64};
use crate::range::{io_error, ByteRange, RecoveryError, RecoveryResult};

pub mod btree;
pub mod catalog;
pub mod checkpoint;
pub mod checksum;
pub mod filesystem;
pub mod fsrecord;
pub mod omap;
pub mod omap_lookup;
pub mod recovery;
pub mod snapshot;
pub mod volume;
pub mod xattr;

verus! {

/// The container superblock magic, `NXSB`.
pub const NXSB_MAGIC: u32 = 0x4253_584e;
/// The volume superblock magic, `APSB`.
pub const APSB_MAGIC: u32 = 0x4253_5041;
pub const MIN_BLOCK_SIZE: u32 = 512;
pub const MAX_BLOCK_SIZE: u32 = 65_536;

/// Container geometry and the object map that locates its objects.
#[derive(Clone, Debug, PartialEq, Eq)]
pub struct ApfsContainer {
    pub block_size: u32,
    pub block_count: u64,
    pub features: u64,
    pub read_only_compatible_features: u64,
    pub incompatible_features: u64,
    pub omap_oid: u64,
}

/// A volume superblock's identity, accounting and tree roots.
#[derive(Clone, Debug, PartialEq, Eq)]
pub struct ApfsVolume {
    pub fs_index: u32,
    pub features: u64,
    pub read_only_compatible_features: u64,
    pub incompatible_features: u64,
    pub unmount_time: u64,
    pub reserve_blocks: u64,
    pub quota_blocks: u64,
    pub allocated_blocks: u64,
    pub fs_reserve_blocks: u64,
    pub omap_oid: u64,
    pub root_tree_oid: u64,
    pub extentref_tree_oid: u64,
    pub snap_meta_tree_oid: u64,
}

/// The header every APFS object starts with.
#[derive(Clone, Debug, PartialEq, Eq)]
pub struct ApfsObjectHeader {
    pub checksum: u64,
    pub oid: u64,
    pub xid: u64,
    pub object_type: u32,
    pub flags: u32,
}

/// The little-endian `u32` at `offset`.
pub fn u32_at(block: &[u8], offset: usize) -> (r: u32)
    requires
        offset + 4 <= block@.len(),
    ensures
        r == spec_le_u32(block@, offset as int),
{
    le_u32(block, offset)
}

/// The little-endian `u64` at `offset`.
pub fn u64_at(block: &[u8], offset: usize) -> (r: u64)
    requires
        offset + 8 <= block@.len(),
    ensures
        r == spec_le_u64(block@, offset as int),
{
    le_u64(block, offset)
}

/// Fails unless `block` holds at least `required` bytes.
pub fn require_len(block: &[u8], required: usize) -> (r: RecoveryResult<()>)
    ensures
        r is Ok <==> block@.len() >= required,
        r matches Err(e) ==> e == (RecoveryError::LengthTooLarge { length: block@.len() as u64 }),
{
    if block.len() < required {
        return Err(RecoveryError::LengthTooLarge { length: block.len() as u64 });
    }
    Ok(())
}

/// The object header a block begins with.
pub open spec fn header_of(b: Seq<u8>) -> ApfsObjectHeader {
    ApfsObjectHeader {
        checksum: spec_le_u64(b, 0) as u64,
        oid: spec_le_u64(b, 8) as u64,
        xid: spec_le_u64(b, 16) as u64,
        object_type: spec_le_u32(b, 24) as u32,
        flags: spec_le_u32(b, 28) as u32,
    }
}

/// Parses the 32-byte object header.
pub fn parse_object_header(block: &[u8]) -> (r: RecoveryResult<ApfsObjectHeader>)
    ensures
        r is Ok <==> block@.len() >= 32,
        r matches Ok(h) ==> h == header_of(block@),
{
    require_len(block, 32)?;
    Ok(
        ApfsObjectHeader {
            checksum: u64_at(block, 0),
            oid: u64_at(block, 8),
            xid: u64_at(block, 16),
            object_type: u32_at(block, 24),
            flags: u32_at(block, 28),
        },
    )
}

/// Whether a block holds a plausible container superblock.
pub open spec fn container_superblock_valid(b: Seq<u8>) -> bool {
    let block_size = spec_le_u32(b, 36);
    &&& b.len() >= 184
    &&& spec_le_u32(b, 32) == NXSB_MAGIC
    &&& MIN_BLOCK_SIZE <= block_size <= MAX_BLOCK_SIZE
    &&& is_pow2(block_size)
    &&& spec_le_u64(b, 40) != 0
}

/// The container a valid superblock describes.
pub open spec fn container_of(b: Seq<u8>) -> ApfsContainer {
    ApfsContainer {
        block_size: spec_le_u32(b, 36) as u32,
        block_count: spec_le_u64(b, 40) as u64,
        features: spec_le_u64(b, 48) as u64,
        read_only_compatible_features: spec_le_u64(b, 56) as u64,
        incompatible_features: spec_le_u64(b, 64) as u64,
        omap_oid: spec_le_u64(b, 176) as u64,
    }
}

/// Parses and validates a container superblock.
pub fn parse_container_superblock(block: &[u8]) -> (r: RecoveryResult<ApfsContainer>)
    ensures
        r is Ok <==> container_superblock_valid(block@),
        r matches Ok(c) ==> c == container_of(block@),
{
    require_len(block, 184)?;
    if u32_at(block, 32) != NXSB_MAGIC {
        return Err(io_error("not an APFS container superblock"));
    }
    let block_size = u32_at(block, 36);
    if block_size < MIN_BLOCK_SIZE || block_size > MAX_BLOCK_SIZE || !pow2_u64(block_size as u64) {
        return Err(io_error("invalid APFS block size"));
    }
    let block_count = u64_at(block, 40);
    if block_count == 0 {
        return Err(io_error("APFS container has zero blocks"));
    }
    Ok(
        ApfsContainer {
            block_size,
            block_count,
            features: u64_at(block, 48),
            read_only_compatible_features: u64_at(block, 56),
            incompatible_features: u64_at(block, 64),
            omap_oid: u64_at(block, 176),
        },
    )
}

/// The volume a valid volume superblock describes.
pub open spec fn volume_of(b: Seq<u8>) -> ApfsVolume {
    ApfsVolume {
        fs_index: spec_le_u32(b, 36) as u32,
        features: spec_le_u64(b, 40) as u64,
        read_only_compatible_features: spec_le_u64(b, 48) as u64,
        incompatible_features: spec_le_u64(b, 56) as u64,
        unmount_time: spec_le_u64(b, 64) as u64,
        reserve_blocks: spec_le_u64(b, 72) as u64,
        quota_blocks: spec_le_u64(b, 80) as u64,
        allocated_blocks: spec_le_u64(b, 88) as u64,
        fs_reserve_blocks: spec_le_u64(b, 96) as u64,
        omap_oid: spec_le_u64(b, 128) as u64,
        root_tree_oid: spec_le_u64(b, 136) as u64,
        extentref_tree_oid: spec_le_u64(b, 144) as u64,
        snap_meta_tree_oid: spec_le_u64(b, 152) as u64,
    }
}

/// Parses a volume superblock.
pub fn parse_volume_superblock(block: &[u8]) -> (r: RecoveryResult<ApfsVolume>)
    ensures
        r is Ok <==> block@.len() >= 160 && spec_le_u32(block@, 32) == APSB_MAGIC,
        r matches Ok(v) ==> v == volume_of(block@),
{
    require_len(block, 160)?;
    if u32_at(block, 32) != APSB_MAGIC {
        return Err(io_error("not an APFS volume superblock"));
    }
    Ok(
        ApfsVolume {
            fs_index: u32_at(block, 36),
            features: u64_at(block, 40),
            read_only_compatible_features: u64_at(block, 48),
            incompatible_features: u64_at(block, 56),
            unmount_time: u64_at(block, 64),
            reserve_blocks: u64_at(block, 72),
            quota_blocks: u64_at(block, 80),
            allocated_blocks: u64_at(block, 88),
            fs_reserve_blocks: u64_at(block, 96),
            omap_oid: u64_at(block, 128),
            root_tree_oid: u64_at(block, 136),
            extentref_tree_oid: u64_at(block, 144),
            snap_meta_tree_oid: u64_at(block, 152),
        },
    )
}

/// The source offset of block `oid` of a container starting at `start`.
pub open spec fn object_offset(container: ApfsContainer, start: int, oid: u64) -> int {
    start + oid * container.block_size
}

/// Whether block `oid` lies in the container, in `range`, and in the
/// source.
pub open spec fn object_readable(contents: Seq<u8>, range: ByteRange, container: ApfsContainer, oid: u64) -> bool {
    &&& oid < container.block_count
    &&& object_offset(container, range.offset as int, oid) + container.block_size <= range.spec_end()
    &&& range.spec_end() <= contents.len()
}

/// Reads the block holding object `oid`.
pub fn read_object<D: BlockDevice>(
    device: &D,
    range: ByteRange,
    container: &ApfsContainer,
    oid: u64,
) -> (r: RecoveryResult<Vec<u8>>)
    ensures
        oid >= container.block_count ==> r is Err,
        r matches Ok(block) ==> {
            &&& oid < container.block_count
            &&& object_offset(*container, range.offset as int, oid) + container.block_size
                <= range.spec_end()
            &&& block@ == span(
                device,
                object_offset(*container, range.offset as int, oid),
                container.block_size as int,
            )
        },
        readable(device) && object_readable(device.contents(), range, *container, oid) ==> r is Ok,
{
    if oid >= container.block_count {
        return Err(
            RecoveryError::OutOfRange { offset: oid, length: 1, capacity: container.block_count },
        );
    }
    let relative = match oid.checked_mul(container.block_size as u64) {
        Some(v) => v,
        None => return Err(RecoveryError::RangeOverflow),
    };
    let offset = match range.offset.checked_add(relative) {
        Some(v) => v,
        None => return Err(RecoveryError::RangeOverflow),
    };
    let length = container.block_size as u64;
    let end = match offset.checked_add(length) {
        Some(v) => v,
        None => return Err(RecoveryError::RangeOverflow),
    };
    let range_end = range.end()?;
    if end > range_end {
        return Err(RecoveryError::OutOfRange { offset, length, capacity: range_end });
    }
    read_exact(device, offset, length)
}

/// Reads and validates the container superblock at the start of `range`, and
/// checks that the container fits in it.
pub fn open<D: BlockDevice>(device: &D, range: ByteRange) -> (r: RecoveryResult<ApfsContainer>)
    ensures
        r matches Ok(c) ==> {
            let n = if range.length < 4096 {
                range.length as int
            } else {
                4096
            };
            &&& range.within(device.contents().len() as int)
            &&& range.length >= 512
            &&& container_superblock_valid(span(device, range.offset as int, n))
            &&& c == container_of(span(device, range.offset as int, n))
            &&& c.block_size * c.block_count <= range.length
        },
        !range.within(device.contents().len() as int) || range.length < 512 ==> r is Err,
        ({
            let n = if range.length < 4096 {
                range.length as int
            } else {
                4096
            };
            let c = container_of(span(device, range.offset as int, n));
            &&& readable(device)
            &&& range.within(device.contents().len() as int)
            &&& range.length >= 512
            &&& container_superblock_valid(span(device, range.offset as int, n))
            &&& c.block_size * c.block_count <= range.length
        }) ==> r is Ok,
{
    range.validate_within(device.capacity())?;
    if range.length < 512 {
        return Err(RecoveryError::LengthTooLarge { length: range.length });
    }
    let read_len: u64 = if range.length < 4096 {
        range.length
    } else {
        4096
    };
    let block = read_exact(device, range.offset, read_len)?;
    let container = parse_container_superblock(block.as_slice())?;
    let bytes = match (container.block_size as u64).checked_mul(container.block_count) {
        Some(v) => v,
        None => return Err(RecoveryError::RangeOverflow),
    };
    if bytes > range.length {
        return Err(io_error("APFS container exceeds supplied range"));
    }
    Ok(container)
}

} // verus!
