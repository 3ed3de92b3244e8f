//! Finding a container's volumes and resolving their trees through object
//! maps.

use vstd::prelude::*;
use crate::apfs::checkpoint::{latest_readable, latest_superblock, read_latest_container_superblock_with_block};
use crate::apfs::omap::{omap_of, omap_valid, parse_object_map, ApfsObjectMapKey, ApfsObjectMapValue, OMAP_VAL_DELETED};
use crate::apfs::omap_lookup::{lookup_object_map, object_block, omap_result, omap_walk_ok, MAX_DEPTH};
use crate::apfs::{
    container_superblock_valid, header_of, parse_container_superblock, parse_object_header,
    parse_volume_superblock, read_object, u32_at, u64_at, volume_of, object_readable, ApfsContainer, ApfsVolume,
    APSB_MAGIC,
};
use crate::bytes::{spec_le_u32, spec_le_u64};
use crate::device::{readable, BlockDevice};
use crate::range::{io_error, ByteRange, RecoveryError, RecoveryResult};

verus! {

pub const NX_FS_OID_OFFSET: usize = 0xC8;
pub const NX_MAX_FILE_SYSTEMS_OFFSET: usize = 0xC4;
pub const NX_FS_OID_SLOTS: usize = 100;

/// A volume found through the container, with the transaction it was found
/// at, so its object map is read at the same point in time.
#[derive(Clone, Debug, PartialEq, Eq)]
pub struct ApfsDiscoveredVolume {
    pub object_id: u64,
    pub xid: u64,
    pub volume: ApfsVolume,
}

/// The non-zero volume ids among the first `k` advertised slots.
pub open spec fn advertised_oids(b: Seq<u8>, k: int) -> Seq<u64>
    decreases k,
{
    if k <= 0 {
        Seq::empty()
    } else {
        let oid = spec_le_u64(b, NX_FS_OID_OFFSET + (k - 1) * 8) as u64;
        let rest = advertised_oids(b, k - 1);
        if oid != 0 {
            rest.push(oid)
        } else {
            rest
        }
    }
}

/// How many volume slots a superblock advertises, capped at the slot count.
pub open spec fn advertised_count(b: Seq<u8>) -> int {
    let n = spec_le_u32(b, NX_MAX_FILE_SYSTEMS_OFFSET as int);
    if n < NX_FS_OID_SLOTS {
        n
    } else {
        NX_FS_OID_SLOTS as int
    }
}

/// Whether `oid` occurs in `oids`.
pub fn contains_oid(oids: &Vec<u64>, oid: u64) -> (r: bool)
    ensures
        r == oids@.contains(oid),
{
    let mut i: usize = 0;
    while i < oids.len()
        invariant
            i <= oids@.len(),
            forall|j: int| 0 <= j < i ==> oids@[j] != oid,
        decreases oids@.len() - i,
    {
        if oids[i] == oid {
            return true;
        }
        i = i + 1;
    }
    false
}

/// Extract the volume object identifiers recorded in a container superblock.
pub fn container_volume_oids(superblock: &[u8]) -> (r: RecoveryResult<Vec<u64>>)
    ensures
        r is Ok <==> container_superblock_valid(superblock@) && superblock@.len() >= NX_FS_OID_OFFSET
            + NX_FS_OID_SLOTS * 8,
        r matches Ok(oids) ==> oids@ == advertised_oids(superblock@, advertised_count(superblock@)),
{
    parse_container_superblock(superblock)?;
    if superblock.len() < NX_FS_OID_OFFSET + NX_FS_OID_SLOTS * 8 {
        return Err(RecoveryError::LengthTooLarge { length: superblock.len() as u64 });
    }
    let advertised = u32_at(superblock, NX_MAX_FILE_SYSTEMS_OFFSET) as usize;
    let count = if advertised < NX_FS_OID_SLOTS {
        advertised
    } else {
        NX_FS_OID_SLOTS
    };
    let mut result: Vec<u64> = Vec::new();
    let mut index: usize = 0;
    while index < count
        invariant
            count <= NX_FS_OID_SLOTS,
            superblock@.len() >= NX_FS_OID_OFFSET + NX_FS_OID_SLOTS * 8,
            index <= count,
            result@ == advertised_oids(superblock@, index as int),
        decreases count - index,
    {
        let oid = u64_at(superblock, NX_FS_OID_OFFSET + index * 8);
        if oid != 0 {
            result.push(oid);
        }
        index = index + 1;
    }
    Ok(result)
}

/// Whether a lookup of `target` in the object map stored at block
/// `omap_oid` reads through: the block is readable and a valid object map,
/// the target is not below its minimum id, its tree root is a block of the
/// container, and the descent reaches a leaf.
pub open spec fn omap_lookup_ok(
    contents: Seq<u8>,
    range: ByteRange,
    container: ApfsContainer,
    omap_oid: u64,
    target: ApfsObjectMapKey,
) -> bool {
    let m = omap_of(object_block(contents, range.offset as int, container, omap_oid));
    &&& object_readable(contents, range, container, omap_oid)
    &&& omap_valid(object_block(contents, range.offset as int, container, omap_oid))
    &&& target.oid >= m.min_oid
    &&& m.tree_oid < container.block_count
    &&& omap_walk_ok(contents, range, container, target, m.tree_oid, MAX_DEPTH as nat, Seq::empty())
}

/// The value that lookup finds.
pub open spec fn omap_lookup_value(
    contents: Seq<u8>,
    range: ByteRange,
    container: ApfsContainer,
    omap_oid: u64,
    target: ApfsObjectMapKey,
) -> ApfsObjectMapValue {
    let m = omap_of(object_block(contents, range.offset as int, container, omap_oid));
    omap_result(contents, range, container, target, m.tree_oid, MAX_DEPTH as nat)
}

/// Whether an object map value marks its object deleted.
pub open spec fn value_deleted(v: ApfsObjectMapValue) -> bool {
    v.flags & OMAP_VAL_DELETED != 0
}

/// The volume superblock the container's object map leads to for volume
/// `oid` at transaction `xid`.
pub open spec fn found_volume(contents: Seq<u8>, range: ByteRange, container: ApfsContainer, oid: u64, xid: u64) -> ApfsVolume {
    let v = omap_lookup_value(contents, range, container, container.omap_oid, ApfsObjectMapKey { oid, xid });
    volume_of(object_block(contents, range.offset as int, container, v.physical_address))
}

/// Whether a lookup of volume `oid` at transaction `xid` through the
/// container's object map finds a live mapping to a block of the container
/// that holds a volume superblock naming `oid`.
pub open spec fn volume_found(contents: Seq<u8>, range: ByteRange, container: ApfsContainer, oid: u64, xid: u64) -> bool {
    let v = omap_lookup_value(contents, range, container, container.omap_oid, ApfsObjectMapKey { oid, xid });
    let b = object_block(contents, range.offset as int, container, v.physical_address);
    &&& !value_deleted(v)
    &&& object_readable(contents, range, container, v.physical_address)
    &&& b.len() >= 160
    &&& header_of(b).oid == oid
    &&& spec_le_u32(b, 32) == APSB_MAGIC
}

/// Resolve a virtual APFS object id through a volume's object map.
pub fn lookup_volume_object<D: BlockDevice>(
    device: &D,
    range: ByteRange,
    container: &ApfsContainer,
    volume: &ApfsVolume,
    target: ApfsObjectMapKey,
) -> (r: RecoveryResult<ApfsObjectMapValue>)
    ensures
        volume.omap_oid == 0 ==> r is Err,
        readable(device) && volume.omap_oid != 0 && omap_lookup_ok(device.contents(), range, *container, volume.omap_oid, target)
            ==> r == Ok::<ApfsObjectMapValue, RecoveryError>(
            omap_lookup_value(device.contents(), range, *container, volume.omap_oid, target),
        ),
{
    if volume.omap_oid == 0 {
        return Err(io_error("APFS volume has no object-map OID"));
    }
    let omap_block = read_object(device, range, container, volume.omap_oid)?;
    let omap = parse_object_map(omap_block.as_slice())?;
    lookup_object_map(device, range, container, &omap, target)
}

/// Resolve the volume root-tree object to its physical block address.
pub fn resolve_volume_root<D: BlockDevice>(
    device: &D,
    range: ByteRange,
    container: &ApfsContainer,
    volume: &ApfsVolume,
    xid: u64,
) -> (r: RecoveryResult<u64>)
    ensures
        volume.root_tree_oid == 0 || volume.omap_oid == 0 ==> r is Err,
        r matches Ok(block) ==> block < container.block_count,
        ({
            let key = ApfsObjectMapKey { oid: volume.root_tree_oid, xid };
            let v = omap_lookup_value(device.contents(), range, *container, volume.omap_oid, key);
            &&& readable(device)
            &&& volume.root_tree_oid != 0 && volume.omap_oid != 0
            &&& omap_lookup_ok(device.contents(), range, *container, volume.omap_oid, key)
            &&& !value_deleted(v) && v.physical_address < container.block_count
        }) ==> r == Ok::<u64, RecoveryError>(
            omap_lookup_value(
                device.contents(),
                range,
                *container,
                volume.omap_oid,
                ApfsObjectMapKey { oid: volume.root_tree_oid, xid },
            ).physical_address,
        ),
{
    if volume.root_tree_oid == 0 {
        return Err(io_error("APFS volume has no root-tree OID"));
    }
    let mapping = lookup_volume_object(
        device,
        range,
        container,
        volume,
        ApfsObjectMapKey { oid: volume.root_tree_oid, xid },
    )?;
    if mapping.is_deleted() {
        return Err(io_error("APFS volume root-tree mapping is deleted"));
    }
    if mapping.physical_address >= container.block_count {
        return Err(
            RecoveryError::OutOfRange {
                offset: mapping.physical_address,
                length: 1,
                capacity: container.block_count,
            },
        );
    }
    Ok(mapping.physical_address)
}

/// Resolve the volume root using the transaction id stored in the volume
/// superblock's object header, so callers need not guess an object-map
/// transaction.
pub fn resolve_volume_root_from_superblock<D: BlockDevice>(
    device: &D,
    range: ByteRange,
    container: &ApfsContainer,
    superblock: &[u8],
) -> (r: RecoveryResult<u64>)
    ensures
        superblock@.len() >= 32 && (header_of(superblock@).oid == 0 || header_of(superblock@).xid == 0)
            ==> r is Err,
        ({
            let vol = volume_of(superblock@);
            let h = header_of(superblock@);
            let key = ApfsObjectMapKey { oid: vol.root_tree_oid, xid: h.xid };
            let v = omap_lookup_value(device.contents(), range, *container, vol.omap_oid, key);
            &&& readable(device)
            &&& superblock@.len() >= 160 && spec_le_u32(superblock@, 32) == APSB_MAGIC
            &&& h.oid != 0 && h.xid != 0
            &&& vol.root_tree_oid != 0 && vol.omap_oid != 0
            &&& omap_lookup_ok(device.contents(), range, *container, vol.omap_oid, key)
            &&& !value_deleted(v) && v.physical_address < container.block_count
        }) ==> r == Ok::<u64, RecoveryError>(
            omap_lookup_value(
                device.contents(),
                range,
                *container,
                volume_of(superblock@).omap_oid,
                ApfsObjectMapKey { oid: volume_of(superblock@).root_tree_oid, xid: header_of(superblock@).xid },
            ).physical_address,
        ),
        r matches Ok(block) ==> block < container.block_count,
{
    let volume = parse_volume_superblock(superblock)?;
    let header = parse_object_header(superblock)?;
    if header.oid == 0 || header.xid == 0 {
        return Err(io_error("APFS volume superblock has invalid object identity"));
    }
    resolve_volume_root(device, range, container, &volume, header.xid)
}

/// Why a volume could not be read.
pub enum VolumeLookup {
    Found(ApfsVolume),
    /// The object map records the volume as deleted.
    Deleted,
}

/// Resolves a volume superblock id through the container object map,
/// telling a deleted mapping apart from a failure.
pub fn lookup_volume_superblock<D: BlockDevice>(
    device: &D,
    range: ByteRange,
    container: &ApfsContainer,
    volume_oid: u64,
    xid: u64,
) -> (r: RecoveryResult<VolumeLookup>)
    ensures
        container.omap_oid == 0 ==> r is Err,
        ({
            let key = ApfsObjectMapKey { oid: volume_oid, xid };
            let v = omap_lookup_value(device.contents(), range, *container, container.omap_oid, key);
            &&& readable(device)
            &&& container.omap_oid != 0
            &&& omap_lookup_ok(device.contents(), range, *container, container.omap_oid, key)
            &&& value_deleted(v)
        }) ==> r matches Ok(VolumeLookup::Deleted),
        ({
            let key = ApfsObjectMapKey { oid: volume_oid, xid };
            let v = omap_lookup_value(device.contents(), range, *container, container.omap_oid, key);
            &&& readable(device)
            &&& container.omap_oid != 0
            &&& omap_lookup_ok(device.contents(), range, *container, container.omap_oid, key)
            &&& !value_deleted(v)
            &&& v.physical_address >= container.block_count
        }) ==> (r matches Err(e) && e is OutOfRange),
        readable(device) && container.omap_oid != 0 && omap_lookup_ok(
            device.contents(),
            range,
            *container,
            container.omap_oid,
            ApfsObjectMapKey { oid: volume_oid, xid },
        ) ==> (r matches Ok(VolumeLookup::Found(vol)) ==> volume_found(device.contents(), range, *container, volume_oid, xid)
            && vol == found_volume(device.contents(), range, *container, volume_oid, xid)),
        readable(device) && container.omap_oid != 0 && omap_lookup_ok(
            device.contents(),
            range,
            *container,
            container.omap_oid,
            ApfsObjectMapKey { oid: volume_oid, xid },
        ) && volume_found(device.contents(), range, *container, volume_oid, xid) ==> (r matches Ok(VolumeLookup::Found(vol))
            && vol == volume_of(
            object_block(
                device.contents(),
                range.offset as int,
                *container,
                omap_lookup_value(
                    device.contents(),
                    range,
                    *container,
                    container.omap_oid,
                    ApfsObjectMapKey { oid: volume_oid, xid },
                ).physical_address,
            ),
        )),
{
    if container.omap_oid == 0 {
        return Err(io_error("APFS container has no object-map OID"));
    }
    let omap_block = read_object(device, range, container, container.omap_oid)?;
    let omap = parse_object_map(omap_block.as_slice())?;
    let mapping = lookup_object_map(device, range, container, &omap, ApfsObjectMapKey { oid: volume_oid, xid })?;
    if mapping.is_deleted() {
        return Ok(VolumeLookup::Deleted);
    }
    if mapping.physical_address >= container.block_count {
        return Err(
            RecoveryError::OutOfRange {
                offset: mapping.physical_address,
                length: 1,
                capacity: container.block_count,
            },
        );
    }
    let block = read_object(device, range, container, mapping.physical_address)?;
    let header = parse_object_header(block.as_slice())?;
    if header.oid != volume_oid {
        return Err(io_error("resolved APFS volume object has unexpected OID"));
    }
    Ok(VolumeLookup::Found(parse_volume_superblock(block.as_slice())?))
}

/// Resolve a volume superblock id through the container object map.
pub fn read_volume_superblock<D: BlockDevice>(
    device: &D,
    range: ByteRange,
    container: &ApfsContainer,
    volume_oid: u64,
    xid: u64,
) -> (r: RecoveryResult<ApfsVolume>)
    ensures
        container.omap_oid == 0 ==> r is Err,
        readable(device) && container.omap_oid != 0 && omap_lookup_ok(
            device.contents(),
            range,
            *container,
            container.omap_oid,
            ApfsObjectMapKey { oid: volume_oid, xid },
        ) && volume_found(device.contents(), range, *container, volume_oid, xid) ==> (r matches Ok(vol) && vol
            == volume_of(
            object_block(
                device.contents(),
                range.offset as int,
                *container,
                omap_lookup_value(
                    device.contents(),
                    range,
                    *container,
                    container.omap_oid,
                    ApfsObjectMapKey { oid: volume_oid, xid },
                ).physical_address,
            ),
        )),
{
    match lookup_volume_superblock(device, range, container, volume_oid, xid)? {
        VolumeLookup::Found(v) => Ok(v),
        VolumeLookup::Deleted => Err(io_error("APFS volume object-map mapping is deleted")),
    }
}

/// Whether looking up volume `oid` at `xid` through the container's object
/// map reads through and finds a deleted mapping, a mapping outside the
/// container, or a volume superblock naming `oid`.
pub open spec fn volume_lookup_ok(contents: Seq<u8>, range: ByteRange, c: ApfsContainer, oid: u64, xid: u64) -> bool {
    let key = ApfsObjectMapKey { oid, xid };
    let v = omap_lookup_value(contents, range, c, c.omap_oid, key);
    &&& c.omap_oid != 0
    &&& omap_lookup_ok(contents, range, c, c.omap_oid, key)
    &&& value_deleted(v) || v.physical_address >= c.block_count || volume_found(contents, range, c, oid, xid)
}

/// Whether discovery from the selected superblock `block` of container `c`
/// reads through: the superblock has an identity, lists its volumes, and
/// every advertised volume's lookup reads through.
#[verifier::opaque]
pub open spec fn discovery_ok(contents: Seq<u8>, range: ByteRange, c: ApfsContainer, block: Seq<u8>) -> bool {
    let h = header_of(block);
    let oids = advertised_oids(block, advertised_count(block));
    &&& block.len() >= 32
    &&& h.oid != 0 && h.xid != 0
    &&& container_superblock_valid(block)
    &&& block.len() >= NX_FS_OID_OFFSET + NX_FS_OID_SLOTS * 8
    &&& forall|k: int| 0 <= k < oids.len() ==> #[trigger] volume_lookup_ok(contents, range, c, oids[k], h.xid)
}

/// Whether `vols` are volumes that discovery from superblock `block` of
/// container `c` finds: each has the superblock's transaction id, an
/// advertised volume id, and the volume superblock the object map leads to
/// for it.
#[verifier::opaque]
pub open spec fn discovered_from(contents: Seq<u8>, range: ByteRange, c: ApfsContainer, block: Seq<u8>, vols: Seq<ApfsDiscoveredVolume>) -> bool {
    forall|i: int|
        0 <= i < vols.len() ==> {
            &&& (#[trigger] vols[i]).xid == header_of(block).xid
            &&& advertised_oids(block, advertised_count(block)).contains(vols[i].object_id)
            &&& volume_found(contents, range, c, vols[i].object_id, vols[i].xid)
            &&& vols[i].volume == found_volume(contents, range, c, vols[i].object_id, vols[i].xid)
        }
}

/// Whether `vols` are volumes that discovery from the newest superblock of
/// container `c` finds.
pub open spec fn discovered_volumes(contents: Seq<u8>, range: ByteRange, c: ApfsContainer, vols: Seq<ApfsDiscoveredVolume>) -> bool {
    exists|b: Seq<u8>| #[trigger] latest_superblock(contents, range, c, b) && discovered_from(contents, range, c, b, vols)
}

/// Discover all live volumes from the newest checkpoint superblock. The
/// checkpoint's transaction id is used for container object-map lookups, and
/// a deleted or out-of-range volume mapping is skipped rather than aborting
/// discovery of the other volumes.
#[verifier::spinoff_prover]
#[verifier::rlimit(100)]
pub fn discover_volumes<D: BlockDevice>(device: &D, range: ByteRange) -> (r: RecoveryResult<(ApfsContainer, Vec<ApfsDiscoveredVolume>)>)
    ensures
        r matches Ok((c, vols)) ==> forall|i: int|
            0 <= i < vols@.len() ==> (#[trigger] vols@[i]).xid != 0 && vols@[i].object_id != 0,
        readable(device) && latest_readable(device.contents(), range) && (forall|c: ApfsContainer, b: Seq<u8>|
            #[trigger] latest_superblock(device.contents(), range, c, b) ==> discovery_ok(device.contents(), range, c, b))
            ==> r is Ok,
        r matches Ok((c, vols)) ==> (readable(device) && latest_readable(device.contents(), range) && (forall|
            c2: ApfsContainer,
            b2: Seq<u8>,
        |
            #[trigger] latest_superblock(device.contents(), range, c2, b2) ==> discovery_ok(device.contents(), range, c2, b2))
            ==> discovered_volumes(device.contents(), range, c, vols@)),
{
    let (container, superblock) = read_latest_container_superblock_with_block(device, range)?;
    proof {
        if readable(device) && latest_readable(device.contents(), range) && (forall|c: ApfsContainer, b: Seq<u8>|
            #[trigger] latest_superblock(device.contents(), range, c, b) ==> discovery_ok(device.contents(), range, c, b)) {
            assert(latest_superblock(device.contents(), range, container, superblock@));
            lemma_discovery_ok(device.contents(), range, container, superblock@);
        }
    }
    let header = parse_object_header(superblock.as_slice())?;
    if header.oid == 0 || header.xid == 0 {
        return Err(io_error("selected APFS container superblock has invalid object identity"));
    }
    let ghost owed = readable(device) && latest_readable(device.contents(), range) && (forall|c: ApfsContainer, b: Seq<u8>|
        #[trigger] latest_superblock(device.contents(), range, c, b) ==> discovery_ok(device.contents(), range, c, b));
    proof {
        if owed {
            assert(latest_superblock(device.contents(), range, container, superblock@));
            lemma_discovery_ok(device.contents(), range, container, superblock@);
        }
    }
    assert(discovered_from(device.contents(), range, container, superblock@, Seq::<ApfsDiscoveredVolume>::empty())) by {
        reveal(discovered_from);
    }
    let volume_oids = container_volume_oids(superblock.as_slice())?;
    proof {
        lemma_advertised_nonzero(superblock@, advertised_count(superblock@));
        if owed {
            lemma_discovery_ok(device.contents(), range, container, superblock@);
            assert forall|j: int| 0 <= j < volume_oids@.len() implies #[trigger] omap_lookup_ok(
                device.contents(),
                range,
                container,
                container.omap_oid,
                ApfsObjectMapKey { oid: volume_oids@[j], xid: header.xid },
            ) && container.omap_oid != 0 by {
                assert(volume_lookup_ok(device.contents(), range, container, volume_oids@[j], header.xid));
            }
        }
    }
    let mut volumes: Vec<ApfsDiscoveredVolume> = Vec::new();
    let mut k: usize = 0;
    while k < volume_oids.len()
        invariant
            k <= volume_oids@.len(),
            header.xid != 0,
            forall|i: int| 0 <= i < volume_oids@.len() ==> #[trigger] volume_oids@[i] != 0,
            forall|i: int|
                0 <= i < volumes@.len() ==> (#[trigger] volumes@[i]).xid != 0 && volumes@[i].object_id != 0,
            owed ==> forall|j: int|
                0 <= j < volume_oids@.len() ==> #[trigger] volume_lookup_ok(
                    device.contents(),
                    range,
                    container,
                    volume_oids@[j],
                    header.xid,
                ),
            owed == (readable(device) && latest_readable(device.contents(), range) && (forall|c: ApfsContainer, b: Seq<u8>|
                #[trigger] latest_superblock(device.contents(), range, c, b) ==> discovery_ok(device.contents(), range, c, b))),
            owed ==> discovered_from(device.contents(), range, container, superblock@, volumes@),
            owed ==> header.xid == header_of(superblock@).xid,
            owed ==> volume_oids@ == advertised_oids(superblock@, advertised_count(superblock@)),
            owed ==> omap_ok_all(device.contents(), range, container, volume_oids@, header.xid),
        decreases volume_oids@.len() - k,
    {
        let object_id = volume_oids[k];
        proof {
            if owed {
                assert(volume_lookup_ok(device.contents(), range, container, volume_oids@[k as int], header.xid));
                assert(omap_lookup_ok(
                    device.contents(),
                    range,
                    container,
                    container.omap_oid,
                    ApfsObjectMapKey { oid: volume_oids@[k as int], xid: header.xid },
                ));
            }
        }
        match lookup_volume_superblock(device, range, &container, object_id, header.xid) {
            Ok(VolumeLookup::Found(volume)) => {
                let ghost before = volumes@;
                volumes.push(ApfsDiscoveredVolume { object_id, xid: header.xid, volume });
                proof {
                    reveal(discovered_from);
                    if owed {
                        assert(volume_oids@.contains(object_id));
                        assert forall|i: int| 0 <= i < volumes@.len() implies {
                            &&& (#[trigger] volumes@[i]).xid == header_of(superblock@).xid
                            &&& advertised_oids(superblock@, advertised_count(superblock@)).contains(volumes@[i].object_id)
                            &&& volume_found(device.contents(), range, container, volumes@[i].object_id, volumes@[i].xid)
                            &&& volumes@[i].volume == found_volume(device.contents(), range, container, volumes@[i].object_id, volumes@[i].xid)
                        } by {
                            if i < before.len() {
                                assert(volumes@[i] == before[i]);
                            }
                        }
                    }
                }
            },
            Ok(VolumeLookup::Deleted) => {},
            Err(RecoveryError::OutOfRange { .. }) => {},
            Err(error) => {
                return Err(error);
            },
        }
        k = k + 1;
    }
    assert((readable(device) && latest_readable(device.contents(), range) && (forall|c: ApfsContainer, b: Seq<u8>|
        #[trigger] latest_superblock(device.contents(), range, c, b) ==> discovery_ok(device.contents(), range, c, b))) ==> owed);
    proof {
        if owed {
            assert(latest_superblock(device.contents(), range, container, superblock@) && discovered_from(
                device.contents(),
                range,
                container,
                superblock@,
                volumes@,
            ));
            assert(exists|b: Seq<u8>|
                #[trigger] latest_superblock(device.contents(), range, container, b) && discovered_from(
                    device.contents(),
                    range,
                    container,
                    b,
                    volumes@,
                ));
        }
    }
    let result = (container, volumes);
    proof {
        if owed {
            assert(result.0 == container);
            assert(result.1@ == volumes@);
            assert(latest_superblock(device.contents(), range, result.0, superblock@));
            assert(discovered_from(device.contents(), range, result.0, superblock@, result.1@));
        }
    }
    assert(owed ==> discovered_volumes(device.contents(), range, result.0, result.1@));
    Ok(result)
}

/// Whether every id of `oids` has a lookup through the container's object
/// map that reads through at `xid`.
pub open spec fn omap_ok_all(contents: Seq<u8>, range: ByteRange, c: ApfsContainer, oids: Seq<u64>, xid: u64) -> bool {
    forall|j: int|
        0 <= j < oids.len() ==> #[trigger] omap_lookup_ok(
            contents,
            range,
            c,
            c.omap_oid,
            ApfsObjectMapKey { oid: oids[j], xid },
        ) && c.omap_oid != 0
}

/// What a superblock from which discovery reads through promises.
proof fn lemma_discovery_ok(contents: Seq<u8>, range: ByteRange, c: ApfsContainer, block: Seq<u8>)
    requires
        discovery_ok(contents, range, c, block),
    ensures
        block.len() >= 32,
        header_of(block).oid != 0 && header_of(block).xid != 0,
        container_superblock_valid(block),
        block.len() >= NX_FS_OID_OFFSET + NX_FS_OID_SLOTS * 8,
        forall|k: int|
            0 <= k < advertised_oids(block, advertised_count(block)).len() ==> #[trigger] volume_lookup_ok(
                contents,
                range,
                c,
                advertised_oids(block, advertised_count(block))[k],
                header_of(block).xid,
            ),
{
    reveal(discovery_ok);
}

/// Every advertised id is non-zero.
pub proof fn lemma_advertised_nonzero(b: Seq<u8>, k: int)
    ensures
        forall|i: int| 0 <= i < advertised_oids(b, k).len() ==> #[trigger] advertised_oids(b, k)[i] != 0,
    decreases k,
{
    if k > 0 {
        lemma_advertised_nonzero(b, k - 1);
        let oid = spec_le_u64(b, NX_FS_OID_OFFSET + (k - 1) * 8) as u64;
        let rest = advertised_oids(b, k - 1);
        if oid != 0 {
            assert forall|i: int| 0 <= i < rest.push(oid).len() implies #[trigger] rest.push(oid)[i] != 0 by {
                if i < rest.len() {
                    assert(rest.push(oid)[i] == rest[i]);
                }
            }
        }
    }
}

} // verus!
