//! APFS object maps: the header, and the keys and values of their trees.

use vstd::prelude::*;
use crate::apfs::{u32_at, u64_at};
use crate::bytes::{spec_le_u32, spec_le_u64};
use crate::range::{io_error, RecoveryError, RecoveryResult};

verus! {

pub const OMAP_HEADER_LEN: usize = 96;
pub const OMAP_TREE_TYPE_MASK: u32 = 0x0000_ffff;
pub const OBJECT_TYPE_BTREE: u32 = 0x0000_0002;
pub const OMAP_VAL_DELETED: u32 = 0x0000_0001;
pub const OMAP_VAL_SAVED: u32 = 0x0000_0002;
pub const OMAP_VAL_ENCRYPTED: u32 = 0x0000_0004;
pub const OMAP_VAL_NOHEADER: u32 = 0x0000_0008;

/// An object map header.
#[derive(Clone, Debug, PartialEq, Eq)]
pub struct ApfsObjectMap {
    pub flags: u32,
    pub snapshot_count: u32,
    pub tree_type: u32,
    pub snapshot_tree_type: u32,
    pub tree_oid: u64,
    pub snapshot_tree_oid: u64,
    pub most_recent_snapshot: u64,
    pub pending_revert_min: u64,
    pub pending_revert_max: u64,
    pub min_oid: u64,
}

/// An object map key: an object id at a transaction.
#[derive(Clone, Copy, Debug, PartialEq, Eq)]
pub struct ApfsObjectMapKey {
    pub oid: u64,
    pub xid: u64,
}

/// An object map value: where the object's block lies.
#[derive(Clone, Copy, Debug, PartialEq, Eq)]
pub struct ApfsObjectMapValue {
    pub flags: u32,
    pub size: u32,
    pub physical_address: u64,
}

impl ApfsObjectMapValue {
    /// Whether the mapping marks the object deleted.
    pub fn is_deleted(self) -> (r: bool)
        ensures
            r == (self.flags & OMAP_VAL_DELETED != 0),
    {
        self.flags & OMAP_VAL_DELETED != 0
    }

    /// Whether the mapping was saved by a snapshot.
    pub fn is_saved(self) -> (r: bool)
        ensures
            r == (self.flags & OMAP_VAL_SAVED != 0),
    {
        self.flags & OMAP_VAL_SAVED != 0
    }

    /// Whether the object is encrypted.
    pub fn is_encrypted(self) -> (r: bool)
        ensures
            r == (self.flags & OMAP_VAL_ENCRYPTED != 0),
    {
        self.flags & OMAP_VAL_ENCRYPTED != 0
    }

    /// Whether the object has no object header.
    pub fn has_no_header(self) -> (r: bool)
        ensures
            r == (self.flags & OMAP_VAL_NOHEADER != 0),
    {
        self.flags & OMAP_VAL_NOHEADER != 0
    }
}

/// Whether an object map header is usable: both trees are B-trees and the
/// main tree has a root.
pub open spec fn omap_valid(d: Seq<u8>) -> bool {
    &&& d.len() >= OMAP_HEADER_LEN
    &&& (spec_le_u32(d, 40) as u32) & OMAP_TREE_TYPE_MASK == OBJECT_TYPE_BTREE
    &&& (spec_le_u32(d, 44) as u32) & OMAP_TREE_TYPE_MASK == OBJECT_TYPE_BTREE
    &&& spec_le_u64(d, 48) != 0
}

/// The object map a valid header describes.
pub open spec fn omap_of(d: Seq<u8>) -> ApfsObjectMap {
    ApfsObjectMap {
        flags: spec_le_u32(d, 32) as u32,
        snapshot_count: spec_le_u32(d, 36) as u32,
        tree_type: spec_le_u32(d, 40) as u32,
        snapshot_tree_type: spec_le_u32(d, 44) as u32,
        tree_oid: spec_le_u64(d, 48) as u64,
        snapshot_tree_oid: spec_le_u64(d, 56) as u64,
        most_recent_snapshot: spec_le_u64(d, 64) as u64,
        pending_revert_min: spec_le_u64(d, 72) as u64,
        pending_revert_max: spec_le_u64(d, 80) as u64,
        min_oid: spec_le_u64(d, 88) as u64,
    }
}

/// Parses and validates an object map header.
pub fn parse_object_map(data: &[u8]) -> (r: RecoveryResult<ApfsObjectMap>)
    ensures
        r is Ok <==> omap_valid(data@),
        r matches Ok(m) ==> m == omap_of(data@),
{
    if data.len() < OMAP_HEADER_LEN {
        return Err(RecoveryError::LengthTooLarge { length: data.len() as u64 });
    }
    let tree_type = u32_at(data, 40);
    let snapshot_tree_type = u32_at(data, 44);
    if tree_type & OMAP_TREE_TYPE_MASK != OBJECT_TYPE_BTREE {
        return Err(io_error("APFS object map has invalid tree type"));
    }
    if snapshot_tree_type & OMAP_TREE_TYPE_MASK != OBJECT_TYPE_BTREE {
        return Err(io_error("APFS object map has invalid snapshot tree type"));
    }
    let tree_oid = u64_at(data, 48);
    if tree_oid == 0 {
        return Err(io_error("APFS object map has no tree root"));
    }
    Ok(
        ApfsObjectMap {
            flags: u32_at(data, 32),
            snapshot_count: u32_at(data, 36),
            tree_type,
            snapshot_tree_type,
            tree_oid,
            snapshot_tree_oid: u64_at(data, 56),
            most_recent_snapshot: u64_at(data, 64),
            pending_revert_min: u64_at(data, 72),
            pending_revert_max: u64_at(data, 80),
            min_oid: u64_at(data, 88),
        },
    )
}

/// The key a 16-byte object map key encodes.
pub open spec fn omap_key_of(d: Seq<u8>) -> ApfsObjectMapKey {
    ApfsObjectMapKey { oid: spec_le_u64(d, 0) as u64, xid: spec_le_u64(d, 8) as u64 }
}

/// The value a 16-byte object map value encodes.
pub open spec fn omap_value_of(d: Seq<u8>) -> ApfsObjectMapValue {
    ApfsObjectMapValue {
        flags: spec_le_u32(d, 0) as u32,
        size: spec_le_u32(d, 4) as u32,
        physical_address: spec_le_u64(d, 8) as u64,
    }
}

/// Parses an object map key.
pub fn parse_object_map_key(data: &[u8]) -> (r: RecoveryResult<ApfsObjectMapKey>)
    ensures
        r is Ok <==> data@.len() >= 16,
        r matches Ok(k) ==> k == omap_key_of(data@),
{
    if data.len() < 16 {
        return Err(RecoveryError::LengthTooLarge { length: data.len() as u64 });
    }
    Ok(ApfsObjectMapKey { oid: u64_at(data, 0), xid: u64_at(data, 8) })
}

/// Parses an object map value.
pub fn parse_object_map_value(data: &[u8]) -> (r: RecoveryResult<ApfsObjectMapValue>)
    ensures
        r is Ok <==> data@.len() >= 16,
        r matches Ok(v) ==> v == omap_value_of(data@),
{
    if data.len() < 16 {
        return Err(RecoveryError::LengthTooLarge { length: data.len() as u64 });
    }
    Ok(ApfsObjectMapValue { flags: u32_at(data, 0), size: u32_at(data, 4), physical_address: u64_at(data, 8) })
}

} // verus!
