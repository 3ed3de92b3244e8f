//! The filesystem index built from catalog records: directory entries,
//! inodes, file extents and extended attributes, and reading file data
//! back through the extents.

use vstd::prelude::*;
use std::collections::BTreeMap;
use crate::apfs::catalog::{read_volume_catalog_records, ApfsCatalogRecord};
use crate::apfs::fsrecord::{
    decode_dir_record_value, decode_drec_key, decode_file_extent_value, decode_hashed_drec_key,
    decode_inode_value, decode_jkey, drec_name, drec_name_field, extent_is_sparse, extent_length,
    hashed_drec_name_field, inode_of, jkey_of, ApfsDrecKey, ApfsInodeValue, APFS_TYPE_DIR_REC,
    APFS_TYPE_FILE_EXTENT, APFS_TYPE_INODE, J_FILE_EXTENT_LEN_MASK, J_INODE_VAL_FIXED_SIZE,
};
use crate::apfs::xattr::{
    index_xattrs, is_xattr_record, sorted_by_name, xattr_record_ok, xattr_view, xattrs_for, ApfsXattr,
};
use crate::apfs::{u64_at, ApfsContainer, ApfsVolume};
use crate::bytes::{spec_le_u16, spec_le_u64};
use crate::device::{readable, BlockDevice};
use crate::fat32::{is_pow2, pow2_u64};
use crate::range::{io_error, ByteRange, RecoveryError, RecoveryResult};
use crate::text::{push_str, string_push};

verus! {

broadcast use vstd::std_specs::btree::group_btree_axioms;

/// Length of a hashed directory-record key's header.
pub const DREC_HASHED_HEADER_LEN: usize = 12;
/// Length of a file-extent key: header and logical address.
pub const EXTENT_KEY_LEN: usize = 16;

/// A named entry of a directory.
#[derive(Clone, Debug, PartialEq, Eq)]
pub struct ApfsDirectoryEntry {
    pub parent_id: u64,
    pub file_id: u64,
    pub name: String,
    pub flags: u16,
}

/// A run of a file's data: where it sits in the file and on disk.
#[derive(Clone, Copy, Debug, PartialEq, Eq)]
pub struct ApfsFileExtent {
    pub logical_offset: u64,
    pub length: u64,
    pub physical_block: u64,
    pub crypto_id: u64,
    pub sparse: bool,
}

/// What a volume's catalog says about its files.
#[derive(Clone, Debug)]
pub struct ApfsFilesystemIndex {
    pub directories: Vec<ApfsDirectoryEntry>,
    pub inodes: BTreeMap<u64, ApfsInodeValue>,
    /// File-extent records keyed by the inode's `private_id` (its data
    /// stream), not by the inode id.
    pub extents: BTreeMap<u64, Vec<ApfsFileExtent>>,
    /// Extended attributes keyed by their owning inode's object id.
    pub xattrs: BTreeMap<u64, Vec<ApfsXattr>>,
}

/// The parent and name a directory-record key holds: the hashed layout when
/// it reads, else the plain one.
pub open spec fn drec_key_of(d: Seq<u8>) -> Option<(u64, Seq<char>)> {
    let hashed = drec_name(hashed_drec_name_field(d));
    let plain = drec_name(drec_name_field(d));
    if d.len() >= DREC_HASHED_HEADER_LEN && hashed is Some {
        Some((jkey_of(d).object_id, hashed->0))
    } else if plain is Some {
        Some((jkey_of(d).object_id, plain->0))
    } else {
        None
    }
}

/// Decodes a directory-record key in either of its layouts.
pub fn decode_drec(data: &[u8]) -> (r: RecoveryResult<ApfsDrecKey>)
    ensures
        r is Ok <==> drec_key_of(data@) is Some,
        r matches Ok(k) ==> drec_key_of(data@) == Some((k.parent_id, k.name@)),
{
    if data.len() >= DREC_HASHED_HEADER_LEN {
        if let Ok(key) = decode_hashed_drec_key(data) {
            return Ok(key);
        }
    }
    decode_drec_key(data)
}

/// Decodes a file-extent key into the data-stream id and the logical
/// address of the extent.
pub fn decode_file_extent_key(data: &[u8]) -> (r: RecoveryResult<(u64, u64)>)
    ensures
        r is Ok <==> data@.len() >= EXTENT_KEY_LEN && jkey_of(data@).record_type == APFS_TYPE_FILE_EXTENT,
        r matches Ok((id, logical)) ==> id == jkey_of(data@).object_id && logical == spec_le_u64(data@, 8),
{
    if data.len() < EXTENT_KEY_LEN {
        return Err(RecoveryError::LengthTooLarge { length: data.len() as u64 });
    }
    let key = decode_jkey(data)?;
    if key.record_type != APFS_TYPE_FILE_EXTENT {
        return Err(io_error("APFS key is not a file extent"));
    }
    Ok((key.object_id, u64_at(data, 8)))
}

/// The record type of a catalog record's key.
pub open spec fn record_type(rec: ApfsCatalogRecord) -> u8 {
    jkey_of(rec.key@).record_type
}

/// Whether a record can be indexed: its key header reads, and a directory,
/// inode or file-extent record's parts decode.
pub open spec fn catalog_record_ok(rec: ApfsCatalogRecord) -> bool {
    &&& rec.key@.len() >= 8
    &&& record_type(rec) == APFS_TYPE_DIR_REC ==> drec_key_of(rec.key@) is Some && rec.value@.len() >= 18
    &&& record_type(rec) == APFS_TYPE_INODE ==> rec.value@.len() >= J_INODE_VAL_FIXED_SIZE
    &&& record_type(rec) == APFS_TYPE_FILE_EXTENT ==> rec.key@.len() >= EXTENT_KEY_LEN && rec.value@.len() >= 24
}

/// The directory records among `records`, in order.
pub open spec fn dir_records(records: Seq<ApfsCatalogRecord>) -> Seq<ApfsCatalogRecord>
    decreases records.len(),
{
    if records.len() == 0 {
        Seq::empty()
    } else {
        let prev = dir_records(records.drop_last());
        if record_type(records.last()) == APFS_TYPE_DIR_REC {
            prev.push(records.last())
        } else {
            prev
        }
    }
}

/// Whether `e` is the directory entry that record `rec` describes.
pub open spec fn entry_from(e: ApfsDirectoryEntry, rec: ApfsCatalogRecord) -> bool {
    &&& drec_key_of(rec.key@) == Some((e.parent_id, e.name@))
    &&& e.file_id == spec_le_u64(rec.value@, 0)
    &&& e.flags == spec_le_u16(rec.value@, 16)
}

/// The extent a file-extent record describes.
pub open spec fn extent_of_record(rec: ApfsCatalogRecord) -> ApfsFileExtent {
    ApfsFileExtent {
        logical_offset: spec_le_u64(rec.key@, 8) as u64,
        length: (spec_le_u64(rec.value@, 0) as u64) & J_FILE_EXTENT_LEN_MASK,
        physical_block: spec_le_u64(rec.value@, 8) as u64,
        crypto_id: spec_le_u64(rec.value@, 16) as u64,
        sparse: spec_le_u64(rec.value@, 8) == 0,
    }
}

/// Whether extents are ordered by logical address.
pub open spec fn sorted_by_logical(s: Seq<ApfsFileExtent>) -> bool {
    forall|i: int, j: int| 0 <= i < j < s.len() ==> #[trigger] s[i].logical_offset <= #[trigger] s[j].logical_offset
}

/// The extents that the records give data stream `id`, in record order.
pub open spec fn extents_for(records: Seq<ApfsCatalogRecord>, id: u64) -> Seq<ApfsFileExtent>
    decreases records.len(),
{
    if records.len() == 0 {
        Seq::empty()
    } else {
        let prev = extents_for(records.drop_last(), id);
        let rec = records.last();
        if record_type(rec) == APFS_TYPE_FILE_EXTENT && jkey_of(rec.key@).object_id == id {
            prev.push(extent_of_record(rec))
        } else {
            prev
        }
    }
}

/// Whether record `k` is the last inode record for `id`.
pub open spec fn last_inode_record(records: Seq<ApfsCatalogRecord>, k: int, id: u64) -> bool {
    &&& 0 <= k < records.len()
    &&& record_type(records[k]) == APFS_TYPE_INODE
    &&& jkey_of(records[k].key@).object_id == id
    &&& forall|q: int|
        k < q < records.len() ==> !(record_type(#[trigger] records[q]) == APFS_TYPE_INODE && jkey_of(
            records[q].key@,
        ).object_id == id)
}

/// Whether the index is what the records describe: directory entries in
/// record order, each inode as its last record gives it, each data stream's
/// extents exactly those its records give, ordered by logical address, and
/// each inode's extended attributes exactly those its records give, ordered
/// by name.
pub open spec fn index_describes(index: ApfsFilesystemIndex, records: Seq<ApfsCatalogRecord>) -> bool {
    let dirs = dir_records(records);
    &&& index.directories@.len() == dirs.len()
    &&& forall|j: int| 0 <= j < dirs.len() ==> #[trigger] entry_from(index.directories@[j], dirs[j])
    &&& forall|id: u64|
        #[trigger] index.inodes@.contains_key(id) <==> exists|k: int|
            0 <= k < records.len() && record_type(#[trigger] records[k]) == APFS_TYPE_INODE
                && jkey_of(records[k].key@).object_id == id
    &&& forall|id: u64|
        #[trigger] index.inodes@.contains_key(id) ==> exists|k: int|
            last_inode_record(records, k, id) && index.inodes@[id] == inode_of(#[trigger] records[k].value@)
    &&& forall|id: u64|
        #[trigger] index.extents@.contains_key(id) <==> exists|k: int|
            0 <= k < records.len() && record_type(#[trigger] records[k]) == APFS_TYPE_FILE_EXTENT
                && jkey_of(records[k].key@).object_id == id
    &&& forall|id: u64| #[trigger] index.extents@.contains_key(id) ==> sorted_by_logical(index.extents@[id]@)
    &&& forall|id: u64, j: int|
        #![trigger index.extents@[id]@[j]]
        index.extents@.contains_key(id) && 0 <= j < index.extents@[id]@.len() ==> exists|k: int|
            0 <= k < records.len() && record_type(#[trigger] records[k]) == APFS_TYPE_FILE_EXTENT
                && jkey_of(records[k].key@).object_id == id && index.extents@[id]@[j] == extent_of_record(records[k])
    &&& forall|id: u64|
        #[trigger] index.extents@.contains_key(id) ==> index.extents@[id]@.to_multiset() == extents_for(records, id).to_multiset()
    &&& forall|id: u64|
        #[trigger] index.xattrs@.contains_key(id) <==> exists|k: int|
            0 <= k < records.len() && is_xattr_record(#[trigger] records[k]) && jkey_of(records[k].key@).object_id == id
    &&& forall|id: u64| #[trigger] index.xattrs@.contains_key(id) ==> sorted_by_name(index.xattrs@[id]@)
    &&& forall|id: u64|
        #[trigger] index.xattrs@.contains_key(id) ==> index.xattrs@[id]@.map_values(|x: ApfsXattr| xattr_view(x)).to_multiset()
            == xattrs_for(records, id).to_multiset()
}

/// Inserts `e` after every extent that does not start after it.
fn insert_by_logical(list: &mut Vec<ApfsFileExtent>, e: ApfsFileExtent)
    requires
        sorted_by_logical(old(list)@),
    ensures
        sorted_by_logical(final(list)@),
        final(list)@.to_multiset() == old(list)@.to_multiset().insert(e),
{
    let mut p: usize = 0;
    while p < list.len() && list[p].logical_offset <= e.logical_offset
        invariant
            p <= list@.len(),
            forall|j: int| 0 <= j < p ==> #[trigger] list@[j].logical_offset <= e.logical_offset,
        decreases list@.len() - p,
    {
        p = p + 1;
    }
    let ghost before = list@;
    proof {
        vstd::seq_lib::to_multiset_insert(before, p as int, e);
    }
    list.insert(p, e);
    assert forall|i: int, j: int| 0 <= i < j < list@.len() implies #[trigger] list@[i].logical_offset
        <= #[trigger] list@[j].logical_offset by {
        if j < p {
            assert(list@[i] == before[i] && list@[j] == before[j]);
        } else if j == p {
            assert(list@[i] == before[i]);
        } else if i == p {
            assert(list@[j] == before[j - 1]);
            assert(before[p as int].logical_offset <= before[j - 1].logical_offset);
        } else if i < p {
            assert(list@[i] == before[i] && list@[j] == before[j - 1]);
        } else {
            assert(list@[i] == before[i - 1] && list@[j] == before[j - 1]);
        }
    }
}

/// Joins catalog records into a filesystem index: directory entries in
/// record order, inodes by object id, each data stream's extents ordered by
/// logical address, and inline extended attributes. A record that does not
/// decode fails the whole index.
pub fn index_catalog_records(records: &[ApfsCatalogRecord]) -> (r: RecoveryResult<ApfsFilesystemIndex>)
    ensures
        r is Ok <==> forall|k: int|
            #![trigger records@[k]]
            0 <= k < records@.len() ==> catalog_record_ok(records@[k]) && xattr_record_ok(records@[k]),
        r matches Ok(index) ==> index_describes(index, records@),
{
    let mut directories: Vec<ApfsDirectoryEntry> = Vec::new();
    let mut inodes: BTreeMap<u64, ApfsInodeValue> = BTreeMap::new();
    let mut extents: BTreeMap<u64, Vec<ApfsFileExtent>> = BTreeMap::new();
    let mut k: usize = 0;
    while k < records.len()
        invariant
            k <= records@.len(),
            forall|q: int| 0 <= q < k ==> #[trigger] catalog_record_ok(records@[q]),
            directories@.len() == dir_records(records@.take(k as int)).len(),
            forall|j: int|
                0 <= j < directories@.len() ==> #[trigger] entry_from(
                    directories@[j],
                    dir_records(records@.take(k as int))[j],
                ),
            forall|id: u64|
                #[trigger] inodes@.contains_key(id) <==> exists|q: int|
                    0 <= q < k && record_type(#[trigger] records@[q]) == APFS_TYPE_INODE
                        && jkey_of(records@[q].key@).object_id == id,
            forall|id: u64|
                #[trigger] inodes@.contains_key(id) ==> exists|q: int|
                    last_inode_record(records@.take(k as int), q, id) && inodes@[id] == inode_of(
                        #[trigger] records@[q].value@,
                    ),
            forall|id: u64|
                #[trigger] extents@.contains_key(id) <==> exists|q: int|
                    0 <= q < k && record_type(#[trigger] records@[q]) == APFS_TYPE_FILE_EXTENT
                        && jkey_of(records@[q].key@).object_id == id,
            forall|id: u64| #[trigger] extents@.contains_key(id) ==> sorted_by_logical(extents@[id]@),
            forall|id: u64, j: int|
                #![trigger extents@[id]@[j]]
                extents@.contains_key(id) && 0 <= j < extents@[id]@.len() ==> exists|q: int|
                    0 <= q < k && record_type(#[trigger] records@[q]) == APFS_TYPE_FILE_EXTENT
                        && jkey_of(records@[q].key@).object_id == id && extents@[id]@[j] == extent_of_record(
                        records@[q],
                    ),
            forall|id: u64|
                #[trigger] extents@.contains_key(id) ==> extents@[id]@.to_multiset() == extents_for(
                    records@.take(k as int),
                    id,
                ).to_multiset(),
            forall|id: u64| !extents@.contains_key(id) ==> #[trigger] extents_for(records@.take(k as int), id).len() == 0,
        decreases records@.len() - k,
    {
        let record = &records[k];
        let ghost rec = records@[k as int];
        assert(records@.take(k + 1).drop_last() == records@.take(k as int));
        assert(records@.take(k + 1).last() == rec);
        let jkey = match decode_jkey(record.key.as_slice()) {
            Ok(v) => v,
            Err(e) => {
                assert(!catalog_record_ok(rec));
                return Err(e);
            },
        };
        if jkey.record_type == APFS_TYPE_DIR_REC {
            let key = match decode_drec(record.key.as_slice()) {
                Ok(v) => v,
                Err(e) => {
                    assert(!catalog_record_ok(rec));
                    return Err(e);
                },
            };
            let value = match decode_dir_record_value(record.value.as_slice()) {
                Ok(v) => v,
                Err(e) => {
                    assert(!catalog_record_ok(rec));
                    return Err(e);
                },
            };
            let ghost before = directories@;
            directories.push(
                ApfsDirectoryEntry { parent_id: key.parent_id, file_id: value.file_id, name: key.name, flags: value.flags },
            );
            assert forall|j: int| 0 <= j < directories@.len() implies #[trigger] entry_from(
                directories@[j],
                dir_records(records@.take(k + 1))[j],
            ) by {
                if j < before.len() {
                    assert(directories@[j] == before[j]);
                }
            }
        } else if jkey.record_type == APFS_TYPE_INODE {
            let value = match decode_inode_value(record.value.as_slice()) {
                Ok(v) => v,
                Err(e) => {
                    assert(!catalog_record_ok(rec));
                    return Err(e);
                },
            };
            let ghost before = inodes@;
            inodes.insert(jkey.object_id, value);
            assert forall|id: u64| #[trigger] inodes@.contains_key(id) implies exists|q: int|
                last_inode_record(records@.take(k + 1), q, id) && inodes@[id] == inode_of(
                    #[trigger] records@[q].value@,
                ) by {
                if id == jkey.object_id {
                    assert(last_inode_record(records@.take(k + 1), k as int, id));
                } else {
                    let q = choose|q: int|
                        last_inode_record(records@.take(k as int), q, id) && before[id] == inode_of(
                            #[trigger] records@[q].value@,
                        );
                    assert(last_inode_record(records@.take(k + 1), q, id));
                }
            }
            assert forall|id: u64| (exists|q: int|
                0 <= q < k + 1 && record_type(#[trigger] records@[q]) == APFS_TYPE_INODE
                    && jkey_of(records@[q].key@).object_id == id) implies #[trigger] inodes@.contains_key(id) by {
                if id != jkey.object_id {
                    let q = choose|q: int|
                        0 <= q < k + 1 && record_type(#[trigger] records@[q]) == APFS_TYPE_INODE
                            && jkey_of(records@[q].key@).object_id == id;
                    assert(q < k);
                }
            }
        } else if jkey.record_type == APFS_TYPE_FILE_EXTENT {
            let (dstream_id, logical_offset) = match decode_file_extent_key(record.key.as_slice()) {
                Ok(v) => v,
                Err(e) => {
                    assert(!catalog_record_ok(rec));
                    return Err(e);
                },
            };
            let value = match decode_file_extent_value(record.value.as_slice()) {
                Ok(v) => v,
                Err(e) => {
                    assert(!catalog_record_ok(rec));
                    return Err(e);
                },
            };
            let e = ApfsFileExtent {
                logical_offset,
                length: extent_length(value.length_and_flags),
                physical_block: value.physical_block,
                crypto_id: value.crypto_id,
                sparse: extent_is_sparse(&value),
            };
            assert(e == extent_of_record(rec));
            let ghost before = extents@;
            let mut list = match extents.remove(&dstream_id) {
                Some(v) => v,
                None => Vec::new(),
            };
            let ghost old_list = list@;
            insert_by_logical(&mut list, e);
            proof {
                if !before.contains_key(dstream_id) {
                    assert(old_list =~= Seq::<ApfsFileExtent>::empty());
                    assert(extents_for(records@.take(k as int), dstream_id) =~= Seq::<ApfsFileExtent>::empty());
                }
                vstd::seq_lib::to_multiset_insert(
                    extents_for(records@.take(k as int), dstream_id),
                    extents_for(records@.take(k as int), dstream_id).len() as int,
                    e,
                );
                assert(extents_for(records@.take(k as int), dstream_id).insert(
                    extents_for(records@.take(k as int), dstream_id).len() as int,
                    e,
                ) =~= extents_for(records@.take(k + 1), dstream_id));
            }
            proof {
                assert forall|j: int| 0 <= j < list@.len() implies exists|q: int|
                    0 <= q < k + 1 && record_type(#[trigger] records@[q]) == APFS_TYPE_FILE_EXTENT
                        && jkey_of(records@[q].key@).object_id == dstream_id && #[trigger] list@[j]
                        == extent_of_record(records@[q]) by {
                    vstd::seq_lib::to_multiset_contains(list@, list@[j]);
                    vstd::seq_lib::to_multiset_contains(old_list, list@[j]);
                    assert(list@.contains(list@[j]));
                    if list@[j] != e {
                        assert(old_list.contains(list@[j]));
                        let jj = choose|jj: int| 0 <= jj < old_list.len() && old_list[jj] == list@[j];
                        assert(before.contains_key(dstream_id) && before[dstream_id]@[jj] == list@[j]);
                    } else {
                        assert(record_type(records@[k as int]) == APFS_TYPE_FILE_EXTENT);
                    }
                }
            }
            extents.insert(dstream_id, list);
        }
        assert(catalog_record_ok(rec));
        proof {
            assert forall|id: u64| #[trigger] extents@.contains_key(id) && !(record_type(rec) == APFS_TYPE_FILE_EXTENT && jkey_of(rec.key@).object_id == id)
                implies extents_for(records@.take(k + 1), id) == extents_for(records@.take(k as int), id) by {}
            assert forall|id: u64| !extents@.contains_key(id) implies #[trigger] extents_for(records@.take(k + 1), id).len() == 0 by {
                assert(extents_for(records@.take(k + 1), id) == extents_for(records@.take(k as int), id));
            }
        }
        k = k + 1;
    }
    assert(records@.take(records@.len() as int) == records@);
    let xattrs = match index_xattrs(records) {
        Ok(v) => v,
        Err(e) => {
            proof {
                let k0 = choose|k0: int| 0 <= k0 < records@.len() && !#[trigger] xattr_record_ok(records@[k0]);
                assert(!(catalog_record_ok(records@[k0]) && xattr_record_ok(records@[k0])));
            }
            return Err(e);
        },
    };
    Ok(ApfsFilesystemIndex { directories, inodes, extents, xattrs })
}

/// Whether a volume's catalog reads through and indexes: its tree walk
/// reads through, and every entry of every checksummed leaf node of the
/// container decodes as a catalog record.
pub open spec fn catalog_readable(contents: Seq<u8>, range: ByteRange, container: ApfsContainer, volume: ApfsVolume, xid: u64) -> bool {
    &&& volume.root_tree_oid != 0
    &&& crate::apfs::catalog::virtual_tree_ok(contents, range, container, volume, volume.root_tree_oid, xid, 0, Seq::empty())
    &&& forall|rec: ApfsCatalogRecord|
        #[trigger] crate::apfs::catalog::is_leaf_record(contents, range.offset as int, container, rec) ==> catalog_record_ok(rec)
            && xattr_record_ok(rec)
}

/// Reads a volume's catalog and indexes it.
pub fn read_volume_filesystem_index<D: BlockDevice>(
    device: &D,
    range: ByteRange,
    container: &ApfsContainer,
    volume: &ApfsVolume,
    xid: u64,
) -> (r: RecoveryResult<ApfsFilesystemIndex>)
    ensures
        volume.root_tree_oid == 0 || volume.omap_oid == 0 ==> r is Err,
        r matches Ok(index) ==> exists|records: Seq<ApfsCatalogRecord>|
            crate::apfs::catalog::all_leaf_records(device.contents(), range.offset as int, *container, records)
                && #[trigger] index_describes(index, records),
        readable(device) && catalog_readable(device.contents(), range, *container, *volume, xid) ==> r is Ok,
{
    let records = read_volume_catalog_records(device, range, container, volume, xid)?;
    proof {
        assert forall|k: int| #![trigger records@[k]] 0 <= k < records@.len() implies catalog_record_ok(records@[k])
            && xattr_record_ok(records@[k]) || !catalog_readable(device.contents(), range, *container, *volume, xid) by {
            assert(crate::apfs::catalog::is_leaf_record(device.contents(), range.offset as int, *container, records@[k]));
        }
    }
    let index = index_catalog_records(records.as_slice())?;
    assert(index_describes(index, records@));
    Ok(index)
}

impl ApfsFilesystemIndex {
    /// The extended attributes owned by a directory entry's inode, in name
    /// order.
    pub fn xattrs_for_entry(&self, entry: &ApfsDirectoryEntry) -> (r: &[ApfsXattr])
        ensures
            self.xattrs@.contains_key(entry.file_id) ==> r@ == self.xattrs@[entry.file_id]@,
            !self.xattrs@.contains_key(entry.file_id) ==> r@.len() == 0,
    {
        match self.xattrs.get(&entry.file_id) {
            Some(v) => v.as_slice(),
            None => &[],
        }
    }
}

/// Where in the source an extent's data starts: the container start plus its
/// physical block times the block size.
pub open spec fn extent_source(base: int, block_size: int, e: ApfsFileExtent) -> int {
    base + e.physical_block * block_size
}

/// Where the last non-empty extent of `extents` ends in the file, or 0.
pub open spec fn previous_end(extents: Seq<ApfsFileExtent>) -> int
    decreases extents.len(),
{
    if extents.len() == 0 {
        0
    } else if extents.last().length == 0 {
        previous_end(extents.drop_last())
    } else {
        extents.last().logical_offset + extents.last().length
    }
}

/// How many of extent `e`'s bytes lie inside a file of `size` bytes: extent
/// lengths are whole blocks, and the file's size cuts off the rest.
pub open spec fn clipped_length(e: ApfsFileExtent, size: int) -> int {
    if e.logical_offset >= size {
        0
    } else if e.logical_offset + e.length > size {
        size - e.logical_offset
    } else {
        e.length as int
    }
}

/// Whether extent `e`, following extents that end at `prev`, fits a file of
/// `size` bytes inside a container `[base, end)` of `block_size`-byte blocks
/// on a source of `capacity` bytes: it does not overlap what comes before,
/// its end is a `u64`, it is not encrypted, and its data lies inside the
/// container and the source.
pub open spec fn extent_fits(
    e: ApfsFileExtent,
    prev: int,
    size: int,
    base: int,
    end: int,
    block_size: int,
    capacity: int,
) -> bool {
    e.length == 0 || {
        &&& e.logical_offset >= prev
        &&& e.logical_offset + e.length <= u64::MAX
        &&& e.crypto_id == 0
        &&& !e.sparse ==> {
            let src = extent_source(base, block_size, e);
            &&& src + e.length <= end
            &&& src + e.length <= capacity
        }
    }
}

/// Whether every extent fits, each after those before it.
pub open spec fn layout_fits(
    extents: Seq<ApfsFileExtent>,
    size: int,
    base: int,
    end: int,
    block_size: int,
    capacity: int,
) -> bool
    decreases extents.len(),
{
    extents.len() == 0 || {
        &&& layout_fits(extents.drop_last(), size, base, end, block_size, capacity)
        &&& extent_fits(extents.last(), previous_end(extents.drop_last()), size, base, end, block_size, capacity)
    }
}

/// `out` with `data` written over it from `at`.
pub open spec fn place(out: Seq<u8>, at: int, data: Seq<u8>) -> Seq<u8> {
    out.subrange(0, at) + data + out.subrange(at + data.len(), out.len() as int)
}

/// The bytes of a file of `size` bytes rebuilt from its extents: holes and
/// unmapped ranges read as zero, and the part of each mapped extent that lies
/// inside the file comes from the source.
pub open spec fn assembled(
    extents: Seq<ApfsFileExtent>,
    size: nat,
    contents: Seq<u8>,
    base: int,
    block_size: int,
) -> Seq<u8>
    decreases extents.len(),
{
    if extents.len() == 0 {
        Seq::new(size, |i: int| 0u8)
    } else {
        let prev = assembled(extents.drop_last(), size, contents, base, block_size);
        let e = extents.last();
        let len = clipped_length(e, size as int);
        if e.length == 0 || e.sparse || len == 0 {
            prev
        } else {
            let src = extent_source(base, block_size, e);
            place(prev, e.logical_offset as int, contents.subrange(src, src + len))
        }
    }
}

/// Whether byte `k` of a file of `size` bytes comes from the data of extent
/// `e`.
pub open spec fn covers(e: ApfsFileExtent, size: int, k: int) -> bool {
    e.length != 0 && !e.sparse && e.logical_offset <= k < e.logical_offset + clipped_length(e, size)
}

/// How many leading extents pass the layout check: those a reader gets
/// through before the first one that fails.
pub open spec fn fitting_prefix(
    extents: Seq<ApfsFileExtent>,
    size: int,
    base: int,
    end: int,
    block_size: int,
    capacity: int,
) -> nat
    decreases extents.len(),
{
    if layout_fits(extents, size, base, end, block_size, capacity) || extents.len() == 0 {
        extents.len()
    } else {
        fitting_prefix(extents.drop_last(), size, base, end, block_size, capacity)
    }
}

/// Whether `c`, of 1 to `chunk_size` bytes, holds the bytes at logical
/// offset `o` of a file of `size` bytes rebuilt from the extents that pass
/// the layout check (all of them, for a file that reads whole).
pub open spec fn file_chunk(
    extents: Seq<ApfsFileExtent>,
    size: int,
    contents: Seq<u8>,
    base: int,
    end: int,
    block_size: int,
    chunk_size: int,
    o: int,
    c: Seq<u8>,
) -> bool {
    let fp = fitting_prefix(extents, size, base, end, block_size, contents.len() as int);
    &&& 0 < c.len() <= chunk_size
    &&& 0 <= o && o + c.len() <= size
    &&& c == assembled(extents.take(fp as int), size as nat, contents, base, block_size).subrange(o, o + c.len())
}

pub(crate) proof fn lemma_fits_prefix(
    s: Seq<ApfsFileExtent>,
    size: int,
    base: int,
    end: int,
    block_size: int,
    capacity: int,
    m: int,
)
    requires
        layout_fits(s, size, base, end, block_size, capacity),
        0 <= m <= s.len(),
    ensures
        layout_fits(s.take(m), size, base, end, block_size, capacity),
    decreases s.len(),
{
    if m < s.len() {
        assert(s.take(m) == s.drop_last().take(m));
        lemma_fits_prefix(s.drop_last(), size, base, end, block_size, capacity, m);
    } else {
        assert(s.take(m) == s);
    }
}

pub(crate) proof fn lemma_fitting_prefix(
    s: Seq<ApfsFileExtent>,
    size: int,
    base: int,
    end: int,
    block_size: int,
    capacity: int,
    m: int,
)
    requires
        0 <= m <= s.len(),
        layout_fits(s.take(m), size, base, end, block_size, capacity),
    ensures
        m <= fitting_prefix(s, size, base, end, block_size, capacity) <= s.len(),
        layout_fits(
            s.take(fitting_prefix(s, size, base, end, block_size, capacity) as int),
            size,
            base,
            end,
            block_size,
            capacity,
        ),
    decreases s.len(),
{
    if layout_fits(s, size, base, end, block_size, capacity) || s.len() == 0 {
        assert(s.take(s.len() as int) == s);
    } else {
        if m == s.len() {
            assert(s.take(m) == s);
        }
        assert(s.take(m) == s.drop_last().take(m));
        lemma_fitting_prefix(s.drop_last(), size, base, end, block_size, capacity, m);
        let fp = fitting_prefix(s.drop_last(), size, base, end, block_size, capacity);
        assert(s.drop_last().take(fp as int) == s.take(fp as int));
    }
}

pub(crate) proof fn lemma_previous_end(s: Seq<ApfsFileExtent>, size: int, base: int, end: int, block_size: int, capacity: int)
    requires
        layout_fits(s, size, base, end, block_size, capacity),
    ensures
        previous_end(s) >= 0,
        forall|j: int|
            0 <= j < s.len() && (#[trigger] s[j]).length != 0 ==> s[j].logical_offset + s[j].length <= previous_end(s),
    decreases s.len(),
{
    if s.len() > 0 {
        let d = s.drop_last();
        lemma_previous_end(d, size, base, end, block_size, capacity);
        assert forall|j: int| 0 <= j < s.len() && (#[trigger] s[j]).length != 0 implies s[j].logical_offset
            + s[j].length <= previous_end(s) by {
            if j < s.len() - 1 {
                assert(s[j] == d[j]);
            }
        }
    }
}

/// Within a layout that fits, a byte of an extent's range is covered by no
/// other extent.
proof fn lemma_only_cover(
    s: Seq<ApfsFileExtent>,
    size: int,
    base: int,
    end: int,
    block_size: int,
    capacity: int,
    i: int,
    k: int,
)
    requires
        layout_fits(s, size, base, end, block_size, capacity),
        0 <= i < s.len(),
        s[i].length != 0,
        s[i].logical_offset <= k < s[i].logical_offset + clipped_length(s[i], size),
    ensures
        forall|j: int| 0 <= j < s.len() && j != i ==> !covers(#[trigger] s[j], size, k),
{
    assert forall|j: int| 0 <= j < s.len() && j != i implies !covers(#[trigger] s[j], size, k) by {
        if covers(s[j], size, k) {
            if j < i {
                lemma_fits_prefix(s, size, base, end, block_size, capacity, i + 1);
                let t = s.take(i + 1);
                assert(t.drop_last() == s.take(i));
                assert(t.last() == s[i]);
                lemma_previous_end(s.take(i), size, base, end, block_size, capacity);
                assert(s.take(i)[j] == s[j]);
            } else {
                lemma_fits_prefix(s, size, base, end, block_size, capacity, j + 1);
                let t = s.take(j + 1);
                assert(t.drop_last() == s.take(j));
                assert(t.last() == s[j]);
                lemma_previous_end(s.take(j), size, base, end, block_size, capacity);
                assert(s.take(j)[i] == s[i]);
            }
        }
    }
}

/// Byte `k` of a rebuilt file: the source byte of the extent that covers
/// it, or zero where none does.
proof fn lemma_assembled_at(
    s: Seq<ApfsFileExtent>,
    size: nat,
    contents: Seq<u8>,
    base: int,
    end: int,
    block_size: int,
    k: int,
)
    requires
        layout_fits(s, size as int, base, end, block_size, contents.len() as int),
        0 <= k < size,
        base >= 0,
        block_size >= 0,
    ensures
        assembled(s, size, contents, base, block_size).len() == size,
        forall|j: int|
            0 <= j < s.len() && covers(#[trigger] s[j], size as int, k) ==> assembled(s, size, contents, base, block_size)[k]
                == contents[extent_source(base, block_size, s[j]) + k - s[j].logical_offset],
        (forall|j: int| 0 <= j < s.len() ==> !covers(#[trigger] s[j], size as int, k)) ==> assembled(
            s,
            size,
            contents,
            base,
            block_size,
        )[k] == 0,
    decreases s.len(),
{
    if s.len() > 0 {
        let d = s.drop_last();
        let cap = contents.len() as int;
        lemma_assembled_at(d, size, contents, base, end, block_size, k);
        lemma_previous_end(d, size as int, base, end, block_size, cap);
        let prev = assembled(d, size, contents, base, block_size);
        let e = s.last();
        let len = clipped_length(e, size as int);
        assert forall|j: int| 0 <= j < s.len() - 1 implies #[trigger] s[j] == d[j] by {}
        if e.length == 0 || e.sparse || len == 0 {
            assert(!covers(e, size as int, k));
            assert forall|j: int|
                0 <= j < s.len() && covers(#[trigger] s[j], size as int, k) implies assembled(s, size, contents, base, block_size)[k]
                    == contents[extent_source(base, block_size, s[j]) + k - s[j].logical_offset] by {
                assert(j < s.len() - 1);
                assert(s[j] == d[j]);
            }
            if forall|j: int| 0 <= j < s.len() ==> !covers(#[trigger] s[j], size as int, k) {
                assert forall|j: int| 0 <= j < d.len() implies !covers(#[trigger] d[j], size as int, k) by {
                    assert(s[j] == d[j]);
                }
            }
        } else {
            let src = extent_source(base, block_size, e);
            let data = contents.subrange(src, src + len);
            assert(src >= 0) by (nonlinear_arith)
                requires
                    src == base + e.physical_block * block_size,
                    base >= 0,
                    block_size >= 0,
            ;
            assert(e.logical_offset + len <= size);
            let out = assembled(s, size, contents, base, block_size);
            assert(out == place(prev, e.logical_offset as int, data));
            if e.logical_offset <= k < e.logical_offset + len {
                assert(out[k] == data[k - e.logical_offset]);
                assert(covers(e, size as int, k));
                assert forall|j: int|
                    0 <= j < s.len() && covers(#[trigger] s[j], size as int, k) implies out[k] == contents[extent_source(
                        base,
                        block_size,
                        s[j],
                    ) + k - s[j].logical_offset] by {
                    if j < s.len() - 1 {
                        assert(s[j] == d[j]);
                        assert(d[j].logical_offset + d[j].length <= previous_end(d));
                    }
                }
            } else {
                assert(out[k] == prev[k]);
                assert(!covers(e, size as int, k));
                assert forall|j: int|
                    0 <= j < s.len() && covers(#[trigger] s[j], size as int, k) implies out[k] == contents[extent_source(
                        base,
                        block_size,
                        s[j],
                    ) + k - s[j].logical_offset] by {
                    assert(j < s.len() - 1);
                    assert(s[j] == d[j]);
                }
                if forall|j: int| 0 <= j < s.len() ==> !covers(#[trigger] s[j], size as int, k) {
                    assert forall|j: int| 0 <= j < d.len() implies !covers(#[trigger] d[j], size as int, k) by {
                        assert(s[j] == d[j]);
                    }
                }
            }
        }
    }
}

/// A chunk of extent `i`, read once the first `i + 1` extents have passed
/// the layout check, holds the rebuilt file's bytes at its offset.
pub(crate) proof fn lemma_extent_chunk_in_file(
    extents: Seq<ApfsFileExtent>,
    size: int,
    contents: Seq<u8>,
    base: int,
    end: int,
    block_size: int,
    chunk_size: int,
    i: int,
    len: int,
    src: int,
    o: int,
    c: Seq<u8>,
)
    requires
        0 <= i < extents.len(),
        layout_fits(extents.take(i + 1), size, base, end, block_size, contents.len() as int),
        len == clipped_length(extents[i], size),
        extents[i].length != 0 && !extents[i].sparse ==> src == extent_source(base, block_size, extents[i]),
        extent_chunk(extents[i], len, src, contents, o, c),
        0 < c.len() <= chunk_size,
        base >= 0,
        block_size >= 0,
        size >= 0,
    ensures
        file_chunk(extents, size, contents, base, end, block_size, chunk_size, o, c),
{
    let cap = contents.len() as int;
    lemma_fitting_prefix(extents, size, base, end, block_size, cap, i + 1);
    let fp = fitting_prefix(extents, size, base, end, block_size, cap);
    let t = extents.take(fp as int);
    let e = extents[i];
    assert(t[i] == e);
    assert(e.length != 0);
    let out = assembled(t, size as nat, contents, base, block_size);
    assert forall|d: int| 0 <= d < c.len() implies #[trigger] c[d] == out[o + d] by {
        let k = o + d;
        lemma_assembled_at(t, size as nat, contents, base, end, block_size, k);
        lemma_only_cover(t, size, base, end, block_size, cap, i, k);
        if !e.sparse {
            assert(covers(t[i], size, k));
        } else {
            assert(forall|j: int| 0 <= j < t.len() ==> !covers(#[trigger] t[j], size, k));
        }
    }
    lemma_assembled_at(t, size as nat, contents, base, end, block_size, o);
    assert(c == out.subrange(o, o + c.len()));
}

/// A chunk of zeros from a stretch `[next, limit)` that no extent passed so
/// far maps holds the rebuilt file's bytes at its offset: the first `m`
/// extents pass the layout check, those that map bytes end by `next` or
/// start at `limit` or later, and, unless all extents have passed, extent
/// `anchor` among them starts at `limit` or later.
pub(crate) proof fn lemma_zero_chunk_in_file(
    extents: Seq<ApfsFileExtent>,
    size: int,
    contents: Seq<u8>,
    base: int,
    end: int,
    block_size: int,
    chunk_size: int,
    m: int,
    anchor: int,
    next: int,
    limit: int,
    o: int,
    c: Seq<u8>,
)
    requires
        0 <= m <= extents.len(),
        layout_fits(extents.take(m), size, base, end, block_size, contents.len() as int),
        forall|j: int|
            0 <= j < m && (#[trigger] extents[j]).length != 0 && clipped_length(extents[j], size) > 0 ==> extents[j].logical_offset
                + clipped_length(extents[j], size) <= next || extents[j].logical_offset >= limit,
        m < extents.len() ==> 0 <= anchor < m && extents[anchor].length != 0 && extents[anchor].logical_offset >= limit,
        0 <= next <= o,
        o + c.len() <= limit,
        limit <= size,
        c == Seq::new(c.len(), |i: int| 0u8),
        0 < c.len() <= chunk_size,
        base >= 0,
        block_size >= 0,
    ensures
        file_chunk(extents, size, contents, base, end, block_size, chunk_size, o, c),
{
    let cap = contents.len() as int;
    lemma_fitting_prefix(extents, size, base, end, block_size, cap, m);
    let fp = fitting_prefix(extents, size, base, end, block_size, cap);
    let t = extents.take(fp as int);
    let out = assembled(t, size as nat, contents, base, block_size);
    assert forall|d: int| 0 <= d < c.len() implies #[trigger] c[d] == out[o + d] by {
        let k = o + d;
        lemma_assembled_at(t, size as nat, contents, base, end, block_size, k);
        assert forall|j: int| 0 <= j < t.len() implies !covers(#[trigger] t[j], size, k) by {
            assert(t[j] == extents[j]);
            if covers(t[j], size, k) && j >= m {
                lemma_fits_prefix(t, size, base, end, block_size, cap, j + 1);
                let u = t.take(j + 1);
                assert(u.drop_last() == t.take(j));
                assert(u.last() == t[j]);
                lemma_previous_end(t.take(j), size, base, end, block_size, cap);
                assert(t.take(j)[anchor] == extents[anchor]);
            }
        }
    }
    lemma_assembled_at(t, size as nat, contents, base, end, block_size, o);
    assert(c == out.subrange(o, o + c.len()));
}

/// Checks one extent against the layout and returns where its data starts
/// in the source (0 for a hole or an empty extent) and how many of its bytes
/// lie inside the file.
pub(crate) fn check_extent(
    e: &ApfsFileExtent,
    prev: u64,
    file_size: u64,
    base: u64,
    end: u64,
    block_size: u32,
    capacity: u64,
) -> (r: RecoveryResult<(u64, u64)>)
    ensures
        r is Ok <==> extent_fits(*e, prev as int, file_size as int, base as int, end as int, block_size as int, capacity as int),
        r matches Ok((src, len)) ==> {
            &&& len == clipped_length(*e, file_size as int)
            &&& e.sparse ==> src == 0
            &&& e.length != 0 && !e.sparse ==> src == extent_source(base as int, block_size as int, *e)
        },
{
    if e.length == 0 {
        return Ok((0, 0));
    }
    let logical_end = match e.logical_offset.checked_add(e.length) {
        Some(v) => v,
        None => return Err(RecoveryError::RangeOverflow),
    };
    if e.logical_offset < prev {
        return Err(io_error("APFS file extents overlap"));
    }
    // Extent lengths are whole blocks; the file's size cuts off the tail.
    let len = if e.logical_offset >= file_size {
        0
    } else if logical_end > file_size {
        file_size - e.logical_offset
    } else {
        e.length
    };
    if e.crypto_id != 0 {
        return Err(io_error("encrypted APFS extent requires key material"));
    }
    if e.sparse {
        return Ok((0, len));
    }
    let relative = match e.physical_block.checked_mul(block_size as u64) {
        Some(v) => v,
        None => return Err(RecoveryError::RangeOverflow),
    };
    let physical = match base.checked_add(relative) {
        Some(v) => v,
        None => return Err(RecoveryError::RangeOverflow),
    };
    let physical_end = match physical.checked_add(e.length) {
        Some(v) => v,
        None => return Err(RecoveryError::RangeOverflow),
    };
    if physical_end > end {
        return Err(RecoveryError::OutOfRange { offset: physical, length: e.length, capacity: end });
    }
    if physical_end > capacity {
        return Err(RecoveryError::OutOfRange { offset: physical, length: e.length, capacity });
    }
    Ok((physical, len))
}

/// Rebuilds a file's bytes from its extents: holes read as zero, mapped
/// extents are read from the source. The requested size is checked against
/// the container before anything is allocated, so corrupt metadata cannot
/// force an unbounded allocation. An extent reaching past the file's size
/// contributes only the part inside the file. Overlapping or encrypted
/// extents, and extents whose data lies outside the container, fail.
pub fn read_file_extents<D: BlockDevice>(
    device: &D,
    container_range: ByteRange,
    block_size: u32,
    extents: &[ApfsFileExtent],
    file_size: u64,
) -> (r: RecoveryResult<Vec<u8>>)
    ensures
        !is_pow2(block_size as int) || file_size > container_range.length ==> r is Err,
        container_range.offset + container_range.length <= u64::MAX && !layout_fits(
            extents@,
            file_size as int,
            container_range.offset as int,
            container_range.spec_end(),
            block_size as int,
            device.contents().len() as int,
        ) ==> r is Err,
        r matches Ok(out) ==> out@ == assembled(
            extents@,
            file_size as nat,
            device.contents(),
            container_range.offset as int,
            block_size as int,
        ),
        readable(device) && is_pow2(block_size as int) && file_size <= container_range.length && file_size <= usize::MAX
            && container_range.spec_end() <= u64::MAX && layout_fits(
            extents@,
            file_size as int,
            container_range.offset as int,
            container_range.spec_end(),
            block_size as int,
            device.contents().len() as int,
        ) ==> r is Ok,
{
    if !pow2_u64(block_size as u64) {
        return Err(io_error("invalid APFS block size"));
    }
    if file_size > container_range.length {
        return Err(RecoveryError::OutOfRange { offset: 0, length: file_size, capacity: container_range.length });
    }
    if file_size > usize::MAX as u64 {
        return Err(RecoveryError::LengthTooLarge { length: file_size });
    }
    let container_end = container_range.end()?;
    let capacity = device.capacity();
    let ghost owed = readable(device) && layout_fits(
        extents@,
        file_size as int,
        container_range.offset as int,
        container_end as int,
        block_size as int,
        capacity as int,
    );
    let mut output: Vec<u8> = vec![0u8; file_size as usize];
    let mut prev: u64 = 0;
    let mut i: usize = 0;
    assert(output@ == assembled(extents@.take(0), file_size as nat, device.contents(), container_range.offset as int, block_size as int));
    while i < extents.len()
        invariant
            i <= extents@.len(),
            container_end == container_range.spec_end(),
            capacity == device.contents().len(),
            file_size <= usize::MAX,
            output@.len() == file_size,
            prev == previous_end(extents@.take(i as int)),
            layout_fits(
                extents@.take(i as int),
                file_size as int,
                container_range.offset as int,
                container_end as int,
                block_size as int,
                capacity as int,
            ),
            output@ == assembled(extents@.take(i as int), file_size as nat, device.contents(), container_range.offset as int, block_size as int),
            owed == (readable(device) && layout_fits(
                extents@,
                file_size as int,
                container_range.offset as int,
                container_end as int,
                block_size as int,
                capacity as int,
            )),
        decreases extents@.len() - i,
    {
        let e = extents[i];
        assert(extents@.take(i + 1).drop_last() == extents@.take(i as int));
        assert(extents@.take(i + 1).last() == e);
        proof {
            if owed {
                lemma_fits_prefix(
                    extents@,
                    file_size as int,
                    container_range.offset as int,
                    container_end as int,
                    block_size as int,
                    capacity as int,
                    i + 1,
                );
            }
        }
        let (src, len) = match check_extent(&e, prev, file_size, container_range.offset, container_end, block_size, capacity) {
            Ok(v) => v,
            Err(err) => {
                return Err(err);
            },
        };
        if e.length != 0 && !e.sparse && len != 0 {
            let data = crate::device::read_exact(device, src, len)?;
            let ghost before = output@;
            crate::bytes::put_bytes(&mut output, e.logical_offset as usize, data.as_slice());
            assert(output@ =~= place(before, e.logical_offset as int, data@));
        }
        if e.length != 0 {
            prev = e.logical_offset + e.length;
        }
        i = i + 1;
    }
    assert(extents@.take(extents@.len() as int) == extents@);
    Ok(output)
}

/// Whether `c` holds the bytes at logical offset `o` of a file extent `e`
/// whose first `len` bytes lie in the file and whose data starts at `src` in
/// `contents`: zeros for a hole, the source bytes otherwise.
pub open spec fn extent_chunk(e: ApfsFileExtent, len: int, src: int, contents: Seq<u8>, o: int, c: Seq<u8>) -> bool {
    &&& e.logical_offset <= o && o + c.len() <= e.logical_offset + len
    &&& c == if e.sparse {
        Seq::new(c.len(), |i: int| 0u8)
    } else {
        contents.subrange(src + (o - e.logical_offset), src + (o - e.logical_offset) + c.len())
    }
}

/// Takes the chunks of a file as a walk over its extents hands them over.
pub trait ChunkSink {
    /// The chunks taken so far, each with its logical offset, in order.
    spec fn chunks(&self) -> Seq<(u64, Seq<u8>)>;

    /// Whether every chunk handed over is taken without error.
    spec fn takes_all(&self) -> bool;

    /// Takes the chunk that starts at logical offset `offset`.
    fn take(&mut self, offset: u64, chunk: &[u8]) -> (r: RecoveryResult<()>)
        ensures
            final(self).chunks() == old(self).chunks().push((offset, chunk@)),
            old(self).takes_all() ==> r is Ok && final(self).takes_all(),
    ;
}

/// A sink that keeps every chunk in memory.
pub struct ChunkLog {
    pub entries: Vec<(u64, Vec<u8>)>,
}

impl ChunkLog {
    /// An empty log.
    pub fn new() -> (log: ChunkLog)
        ensures
            log.chunks() == Seq::<(u64, Seq<u8>)>::empty(),
            log.takes_all(),
    {
        let log = ChunkLog { entries: Vec::new() };
        assert(log.chunks() =~= Seq::<(u64, Seq<u8>)>::empty());
        log
    }
}

impl ChunkSink for ChunkLog {
    open spec fn chunks(&self) -> Seq<(u64, Seq<u8>)> {
        self.entries@.map_values(|p: (u64, Vec<u8>)| (p.0, p.1@))
    }

    open spec fn takes_all(&self) -> bool {
        true
    }

    fn take(&mut self, offset: u64, chunk: &[u8]) -> (r: RecoveryResult<()>) {
        let copy = crate::bytes::copy_range(chunk, 0, chunk.len());
        assert(copy@ =~= chunk@);
        let ghost before = self.chunks();
        self.entries.push((offset, copy));
        assert(self.chunks() =~= before.push((offset, chunk@)));
        Ok(())
    }
}

/// The bytes `[done, done + amount)` of extent `e`, whose data starts at
/// `src`: zeros for a hole, the source bytes otherwise.
pub open spec fn extent_bytes(e: ApfsFileExtent, src: int, contents: Seq<u8>, done: int, amount: int) -> Seq<u8> {
    if e.sparse {
        Seq::new(amount as nat, |i: int| 0u8)
    } else {
        contents.subrange(src + done, src + done + amount)
    }
}

/// The chunks of extent `e` from byte `done` to byte `len`, in order, each
/// of `chunk_size` bytes but the last, with their logical offsets.
pub open spec fn extent_pieces(
    e: ApfsFileExtent,
    src: int,
    contents: Seq<u8>,
    chunk_size: int,
    done: int,
    len: int,
) -> Seq<(u64, Seq<u8>)>
    decreases len - done,
{
    if chunk_size <= 0 || done >= len {
        Seq::empty()
    } else {
        let amount = if len - done < chunk_size {
            len - done
        } else {
            chunk_size
        };
        seq![((e.logical_offset + done) as u64, extent_bytes(e, src, contents, done, amount))] + extent_pieces(
            e,
            src,
            contents,
            chunk_size,
            done + amount,
            len,
        )
    }
}

/// The chunks a walk over `extents` of a file of `size` bytes hands over,
/// extent after extent: the part of each non-empty extent inside the file in
/// chunks of at most `chunk_size` bytes, holes as zeros,
/// mapped data from the source inside a container at `base` of
/// `block_size`-byte blocks.
pub open spec fn file_pieces(
    extents: Seq<ApfsFileExtent>,
    size: int,
    contents: Seq<u8>,
    base: int,
    block_size: int,
    chunk_size: int,
) -> Seq<(u64, Seq<u8>)>
    decreases extents.len(),
{
    if extents.len() == 0 {
        Seq::empty()
    } else {
        let e = extents.last();
        let src = if e.sparse {
            0
        } else {
            extent_source(base, block_size, e)
        };
        file_pieces(extents.drop_last(), size, contents, base, block_size, chunk_size) + extent_pieces(
            e,
            src,
            contents,
            chunk_size,
            0,
            if e.length == 0 {
                0
            } else {
                clipped_length(e, size)
            },
        )
    }
}

/// Hands the first `len` bytes of one checked extent to `sink` in chunks of
/// at most `chunk_size` bytes.
fn visit_extent_chunks<D: BlockDevice, S: ChunkSink>(
    device: &D,
    e: &ApfsFileExtent,
    src: u64,
    len: u64,
    chunk_size: usize,
    sink: &mut S,
) -> (r: RecoveryResult<()>)
    requires
        chunk_size > 0,
        len != 0 && !e.sparse ==> src + len <= u64::MAX && src + len <= device.contents().len(),
        len != 0 ==> e.logical_offset + len <= u64::MAX,
    ensures
        r is Ok ==> final(sink).chunks() == old(sink).chunks() + extent_pieces(
            *e,
            src as int,
            device.contents(),
            chunk_size as int,
            0,
            len as int,
        ),
        r is Ok && old(sink).takes_all() ==> final(sink).takes_all(),
        readable(device) && old(sink).takes_all() ==> r is Ok,
{
    let ghost start = sink.chunks();
    let ghost start_ok = sink.takes_all();
    let ghost contents = device.contents();
    let mut done: u64 = 0;
    while done < len
        invariant
            chunk_size > 0,
            done <= len,
            contents == device.contents(),
            len != 0 && !e.sparse ==> src + len <= u64::MAX && src + len <= device.contents().len(),
            len != 0 ==> e.logical_offset + len <= u64::MAX,
            sink.chunks() + extent_pieces(*e, src as int, contents, chunk_size as int, done as int, len as int)
                == start + extent_pieces(*e, src as int, contents, chunk_size as int, 0, len as int),
            start_ok ==> sink.takes_all(),
            start_ok == old(sink).takes_all(),
        decreases len - done,
    {
        let remaining = len - done;
        let amount: u64 = if remaining < chunk_size as u64 {
            remaining
        } else {
            chunk_size as u64
        };
        let chunk = if e.sparse {
            vec![0u8; amount as usize]
        } else {
            crate::device::read_exact(device, src + done, amount)?
        };
        let ghost piece = ((e.logical_offset + done) as u64, extent_bytes(*e, src as int, contents, done as int, amount as int));
        assert(chunk@ =~= piece.1);
        let ghost rest = extent_pieces(*e, src as int, contents, chunk_size as int, (done + amount) as int, len as int);
        assert(extent_pieces(*e, src as int, contents, chunk_size as int, done as int, len as int) == seq![piece] + rest);
        let ghost before = sink.chunks();
        sink.take(e.logical_offset + done, chunk.as_slice())?;
        assert(sink.chunks() + rest =~= before + (seq![piece] + rest));
        done = done + amount;
    }
    assert(extent_pieces(*e, src as int, contents, chunk_size as int, done as int, len as int) =~= Seq::<(u64, Seq<u8>)>::empty());
    assert(sink.chunks() + Seq::<(u64, Seq<u8>)>::empty() =~= sink.chunks());
    Ok(())
}

/// Streams a file's extent data to `sink` in chunks of at most `chunk_size`
/// bytes, without a buffer the size of the file. Holes are handed over as
/// zeros. The chunks come in ascending logical order; the first error stops
/// the walk and is returned. The extents are checked as `read_file_extents`
/// checks them, each just before its chunks are handed over.
pub fn for_each_file_extent_chunk<D: BlockDevice, S: ChunkSink>(
    device: &D,
    container_range: ByteRange,
    block_size: u32,
    extents: &[ApfsFileExtent],
    file_size: u64,
    chunk_size: usize,
    sink: &mut S,
) -> (r: RecoveryResult<()>)
    ensures
        !is_pow2(block_size as int) || chunk_size == 0 || file_size > container_range.length ==> r is Err,
        container_range.offset + container_range.length <= u64::MAX && !layout_fits(
            extents@,
            file_size as int,
            container_range.offset as int,
            container_range.spec_end(),
            block_size as int,
            device.contents().len() as int,
        ) ==> r is Err,
        r is Ok ==> final(sink).chunks() == old(sink).chunks() + file_pieces(
            extents@,
            file_size as int,
            device.contents(),
            container_range.offset as int,
            block_size as int,
            chunk_size as int,
        ),
        readable(device) && old(sink).takes_all() && is_pow2(block_size as int) && chunk_size > 0
            && file_size <= container_range.length && container_range.spec_end() <= u64::MAX && layout_fits(
            extents@,
            file_size as int,
            container_range.offset as int,
            container_range.spec_end(),
            block_size as int,
            device.contents().len() as int,
        ) ==> r is Ok,
{
    if !pow2_u64(block_size as u64) {
        return Err(io_error("invalid APFS block size"));
    }
    if chunk_size == 0 {
        return Err(io_error("invalid APFS extent chunk size"));
    }
    if file_size > container_range.length {
        return Err(RecoveryError::OutOfRange { offset: 0, length: file_size, capacity: container_range.length });
    }
    let container_end = container_range.end()?;
    let capacity = device.capacity();
    let ghost contents = device.contents();
    let ghost start = sink.chunks();
    let ghost owed = readable(device) && sink.takes_all() && layout_fits(
        extents@,
        file_size as int,
        container_range.offset as int,
        container_end as int,
        block_size as int,
        capacity as int,
    );
    let mut prev: u64 = 0;
    let mut i: usize = 0;
    assert(sink.chunks() =~= start + file_pieces(extents@.take(0), file_size as int, contents, container_range.offset as int, block_size as int, chunk_size as int));
    while i < extents.len()
        invariant
            i <= extents@.len(),
            chunk_size > 0,
            contents == device.contents(),
            container_end == container_range.spec_end(),
            capacity == device.contents().len(),
            prev == previous_end(extents@.take(i as int)),
            layout_fits(
                extents@.take(i as int),
                file_size as int,
                container_range.offset as int,
                container_end as int,
                block_size as int,
                capacity as int,
            ),
            sink.chunks() == start + file_pieces(
                extents@.take(i as int),
                file_size as int,
                contents,
                container_range.offset as int,
                block_size as int,
                chunk_size as int,
            ),
            owed == (readable(device) && old(sink).takes_all() && layout_fits(
                extents@,
                file_size as int,
                container_range.offset as int,
                container_end as int,
                block_size as int,
                capacity as int,
            )),
            owed ==> sink.takes_all(),
        decreases extents@.len() - i,
    {
        let e = extents[i];
        assert(extents@.take(i + 1).drop_last() == extents@.take(i as int));
        assert(extents@.take(i + 1).last() == e);
        proof {
            if owed {
                lemma_fits_prefix(
                    extents@,
                    file_size as int,
                    container_range.offset as int,
                    container_end as int,
                    block_size as int,
                    capacity as int,
                    i + 1,
                );
            }
        }
        let (src, len) = match check_extent(&e, prev, file_size, container_range.offset, container_end, block_size, capacity) {
            Ok(v) => v,
            Err(err) => {
                return Err(err);
            },
        };
        let ghost before = sink.chunks();
        visit_extent_chunks(device, &e, src, len, chunk_size, sink)?;
        assert(sink.chunks() =~= start + file_pieces(
            extents@.take(i + 1),
            file_size as int,
            contents,
            container_range.offset as int,
            block_size as int,
            chunk_size as int,
        ));
        if e.length != 0 {
            prev = e.logical_offset + e.length;
        }
        i = i + 1;
    }
    assert(extents@.take(extents@.len() as int) == extents@);
    Ok(())
}

/// Each chunk of extent `e` from byte `done` to byte `len` holds its bytes
/// at its offset, and has 1 to `chunk_size` bytes.
pub(crate) proof fn lemma_extent_pieces_chunks(
    e: ApfsFileExtent,
    src: int,
    contents: Seq<u8>,
    chunk_size: int,
    done: int,
    len: int,
)
    requires
        chunk_size > 0,
        0 <= done,
        e.logical_offset + len <= u64::MAX,
        !e.sparse ==> 0 <= src && src + len <= contents.len(),
    ensures
        ({
            let ps = extent_pieces(e, src, contents, chunk_size, done, len);
            forall|k: int|
                0 <= k < ps.len() ==> 0 < (#[trigger] ps[k]).1.len() <= chunk_size && extent_chunk(
                    e,
                    len,
                    src,
                    contents,
                    ps[k].0 as int,
                    ps[k].1,
                ) && ps[k].0 >= e.logical_offset + done
        }),
        ({
            let ps = extent_pieces(e, src, contents, chunk_size, done, len);
            forall|a: int, b: int| 0 <= a < b < ps.len() ==> (#[trigger] ps[a]).0 + ps[a].1.len() <= (#[trigger] ps[b]).0
        }),
    decreases len - done,
{
    if done < len {
        let amount = if len - done < chunk_size {
            len - done
        } else {
            chunk_size
        };
        lemma_extent_pieces_chunks(e, src, contents, chunk_size, done + amount, len);
        let ps = extent_pieces(e, src, contents, chunk_size, done, len);
        let rest = extent_pieces(e, src, contents, chunk_size, done + amount, len);
        assert(ps == seq![((e.logical_offset + done) as u64, extent_bytes(e, src, contents, done, amount))] + rest);
        assert forall|k: int| 0 <= k < ps.len() implies 0 < (#[trigger] ps[k]).1.len() <= chunk_size && extent_chunk(
            e,
            len,
            src,
            contents,
            ps[k].0 as int,
            ps[k].1,
        ) && ps[k].0 >= e.logical_offset + done by {
            if k > 0 {
                assert(ps[k] == rest[k - 1]);
            } else {
                let o = ps[0].0 as int;
                assert(o == e.logical_offset + done);
                assert(o == e.logical_offset + done);
                assert(ps[0].1 == extent_bytes(e, src, contents, done, amount));
                assert(ps[0].1.len() == amount);
                if e.sparse {
                    assert(ps[0].1 =~= Seq::new(ps[0].1.len(), |i: int| 0u8));
                } else {
                    assert(ps[0].1 =~= contents.subrange(src + (o - e.logical_offset), src + (o - e.logical_offset) + ps[0].1.len()));
                }
            }
        }
        assert forall|a: int, b: int| 0 <= a < b < ps.len() implies (#[trigger] ps[a]).0 + ps[a].1.len() <= (
            #[trigger] ps[b]).0 by {
            assert(ps[b] == rest[b - 1]);
            if a > 0 {
                assert(ps[a] == rest[a - 1]);
            } else {
                assert(ps[0].0 as int == e.logical_offset + done);
                assert(ps[0].1.len() == amount);
            }
        }
    }
}

/// The chunks a walk over a file's extents hands over, when every extent
/// fits, each hold the bytes of the file that `read_file_extents` rebuilds,
/// at their offset: every chunk has 1 to `chunk_size` bytes and lies inside
/// the file, its bytes are the rebuilt file's bytes there, and the chunks
/// come in ascending order without overlapping.
pub proof fn lemma_pieces_in_file(
    extents: Seq<ApfsFileExtent>,
    size: nat,
    contents: Seq<u8>,
    base: int,
    end: int,
    block_size: int,
    chunk_size: int,
)
    requires
        layout_fits(extents, size as int, base, end, block_size, contents.len() as int),
        chunk_size > 0,
        base >= 0,
        block_size >= 0,
    ensures
        ({
            let ps = file_pieces(extents, size as int, contents, base, block_size, chunk_size);
            let out = assembled(extents, size, contents, base, block_size);
            forall|k: int|
                0 <= k < ps.len() ==> 0 < (#[trigger] ps[k]).1.len() <= chunk_size && ps[k].0 + ps[k].1.len() <= size
                    && ps[k].1 == out.subrange(ps[k].0 as int, ps[k].0 + ps[k].1.len())
        }),
        ({
            let ps = file_pieces(extents, size as int, contents, base, block_size, chunk_size);
            forall|a: int, b: int| 0 <= a < b < ps.len() ==> (#[trigger] ps[a]).0 + ps[a].1.len() <= (#[trigger] ps[b]).0
        }),
{
    lemma_pieces_in_file_upto(extents, size, contents, base, end, block_size, chunk_size, extents.len() as int);
    assert(extents.take(extents.len() as int) == extents);
}

/// The chunks of the first `n` extents, as `lemma_pieces_in_file` states of
/// all of them.
proof fn lemma_pieces_in_file_upto(
    extents: Seq<ApfsFileExtent>,
    size: nat,
    contents: Seq<u8>,
    base: int,
    end: int,
    block_size: int,
    chunk_size: int,
    n: int,
)
    requires
        layout_fits(extents, size as int, base, end, block_size, contents.len() as int),
        chunk_size > 0,
        base >= 0,
        block_size >= 0,
        0 <= n <= extents.len(),
    ensures
        ({
            let ps = file_pieces(extents.take(n), size as int, contents, base, block_size, chunk_size);
            let out = assembled(extents, size, contents, base, block_size);
            forall|k: int|
                0 <= k < ps.len() ==> 0 < (#[trigger] ps[k]).1.len() <= chunk_size && ps[k].0 + ps[k].1.len() <= size
                    && ps[k].1 == out.subrange(ps[k].0 as int, ps[k].0 + ps[k].1.len())
        }),
        ({
            let ps = file_pieces(extents.take(n), size as int, contents, base, block_size, chunk_size);
            &&& forall|k: int| 0 <= k < ps.len() ==> (#[trigger] ps[k]).0 + ps[k].1.len() <= previous_end(extents.take(n))
            &&& forall|a: int, b: int| 0 <= a < b < ps.len() ==> (#[trigger] ps[a]).0 + ps[a].1.len() <= (#[trigger] ps[b]).0
        }),
    decreases n,
{
    let cap = contents.len() as int;
    if n > 0 {
        lemma_pieces_in_file_upto(extents, size, contents, base, end, block_size, chunk_size, n - 1);
        let t = extents.take(n);
        assert(t.drop_last() == extents.take(n - 1));
        assert(t.last() == extents[n - 1]);
        let i = n - 1;
        let e = extents[i];
        let src = if e.sparse {
            0
        } else {
            extent_source(base, block_size, e)
        };
        let len = if e.length == 0 {
            0
        } else {
            clipped_length(e, size as int)
        };
        let before = file_pieces(extents.take(n - 1), size as int, contents, base, block_size, chunk_size);
        let mine = extent_pieces(e, src, contents, chunk_size, 0, len);
        let ps = file_pieces(t, size as int, contents, base, block_size, chunk_size);
        assert(ps == before + mine);
        lemma_fits_prefix(extents, size as int, base, end, block_size, cap, n);
        assert(extents.take(n).drop_last() == extents.take(i));
        assert(extent_fits(e, previous_end(extents.take(i)), size as int, base, end, block_size, cap));
        assert(extents.take(extents.len() as int) == extents);
        lemma_fitting_prefix(extents, size as int, base, end, block_size, cap, extents.len() as int);
        let out = assembled(extents, size, contents, base, block_size);
        if e.length != 0 {
            if !e.sparse {
                assert(src >= 0) by (nonlinear_arith)
                    requires
                        src == extent_source(base, block_size, e),
                        base >= 0,
                        block_size >= 0,
                ;
            }
            lemma_extent_pieces_chunks(e, src, contents, chunk_size, 0, len);
            assert forall|k: int| 0 <= k < mine.len() implies 0 < (#[trigger] mine[k]).1.len() <= chunk_size && mine[k].0
                + mine[k].1.len() <= size && mine[k].1 == out.subrange(mine[k].0 as int, mine[k].0 + mine[k].1.len()) by {
                lemma_extent_chunk_in_file(
                    extents,
                    size as int,
                    contents,
                    base,
                    end,
                    block_size,
                    chunk_size,
                    i,
                    len,
                    src,
                    mine[k].0 as int,
                    mine[k].1,
                );
            }
        }
        assert forall|k: int| 0 <= k < ps.len() implies 0 < (#[trigger] ps[k]).1.len() <= chunk_size && ps[k].0
            + ps[k].1.len() <= size && ps[k].1 == out.subrange(ps[k].0 as int, ps[k].0 + ps[k].1.len()) by {
            if k < before.len() {
                assert(ps[k] == before[k]);
            } else {
                assert(ps[k] == mine[k - before.len()]);
            }
        }
        let pe = previous_end(extents.take(i));
        assert(t.last().length == 0 ==> previous_end(t) == pe);
        if e.length != 0 {
            assert(previous_end(t) == e.logical_offset + e.length);
            assert(e.logical_offset >= pe);
            assert(len <= e.length);
        }
        assert forall|k: int| 0 <= k < ps.len() implies (#[trigger] ps[k]).0 + ps[k].1.len() <= previous_end(t) by {
            if k < before.len() {
                assert(ps[k] == before[k]);
                if e.length != 0 {
                    assert(before[k].0 + before[k].1.len() <= pe);
                }
            } else {
                assert(ps[k] == mine[k - before.len()]);
                assert(extent_chunk(e, len, src, contents, mine[k - before.len()].0 as int, mine[k - before.len()].1));
            }
        }
        assert forall|a: int, b: int| 0 <= a < b < ps.len() implies (#[trigger] ps[a]).0 + ps[a].1.len() <= (
            #[trigger] ps[b]).0 by {
            if b < before.len() {
                assert(ps[a] == before[a] && ps[b] == before[b]);
            } else if a < before.len() {
                assert(ps[a] == before[a] && ps[b] == mine[b - before.len()]);
                assert(before[a].0 + before[a].1.len() <= pe);
                assert(mine[b - before.len()].0 >= e.logical_offset);
            } else {
                assert(ps[a] == mine[a - before.len()] && ps[b] == mine[b - before.len()]);
            }
        }
    }
}

/// The index of the first directory entry naming object `id`, from `j` on.
pub open spec fn first_entry_from(dirs: Seq<ApfsDirectoryEntry>, id: u64, j: int) -> Option<int>
    decreases dirs.len() - j,
{
    if j < 0 || j >= dirs.len() {
        None
    } else if dirs[j].file_id == id {
        Some(j)
    } else {
        first_entry_from(dirs, id, j + 1)
    }
}

/// The names of the directories above `current`, nearest first, following
/// each object's first directory entry up to the root (id 0) or to an
/// object no entry names. `None` when the walk meets an id it has already
/// seen, or runs out of `fuel` steps.
pub open spec fn ancestor_names(
    dirs: Seq<ApfsDirectoryEntry>,
    current: u64,
    seen: Seq<u64>,
    fuel: nat,
) -> Option<Seq<Seq<char>>>
    decreases fuel,
{
    if current == 0 {
        Some(Seq::empty())
    } else if fuel == 0 || seen.contains(current) {
        None
    } else {
        match first_entry_from(dirs, current, 0) {
            None => Some(Seq::empty()),
            Some(j) => match ancestor_names(dirs, dirs[j].parent_id, seen.push(current), (fuel - 1) as nat) {
                Some(rest) => Some(seq![dirs[j].name@] + rest),
                None => None,
            },
        }
    }
}

/// `/` followed by each name, the last name first.
pub open spec fn reversed_path(names: Seq<Seq<char>>) -> Seq<char>
    decreases names.len(),
{
    if names.len() == 0 {
        Seq::empty()
    } else {
        reversed_path(names.drop_first()) + seq!['/'] + names[0]
    }
}

/// Finds the first directory entry naming object `id`.
fn find_entry(dirs: &Vec<ApfsDirectoryEntry>, id: u64) -> (r: Option<usize>)
    ensures
        match r {
            Some(j) => first_entry_from(dirs@, id, 0) == Some(j as int) && j < dirs@.len() && dirs@[j as int].file_id
                == id,
            None => first_entry_from(dirs@, id, 0) is None,
        },
{
    let mut j: usize = 0;
    while j < dirs.len()
        invariant
            j <= dirs@.len(),
            first_entry_from(dirs@, id, 0) == first_entry_from(dirs@, id, j as int),
        decreases dirs@.len() - j,
    {
        if dirs[j].file_id == id {
            return Some(j);
        }
        j = j + 1;
    }
    None
}

impl ApfsFilesystemIndex {
    /// The absolute path of a directory entry: `/`, then the names of its
    /// ancestor directories from the root down, then its own name. A
    /// directory hierarchy that loops back on itself fails.
    pub fn path_for_entry(&self, entry: &ApfsDirectoryEntry) -> (r: RecoveryResult<String>)
        ensures
            match ancestor_names(self.directories@, entry.parent_id, Seq::empty(), (self.directories@.len() + 1) as nat) {
                Some(names) => r matches Ok(path) && path@ == reversed_path(names) + seq!['/'] + entry.name@,
                None => r is Err,
            },
    {
        let dirs = &self.directories;
        let ghost fuel0 = (dirs@.len() + 1) as nat;
        let mut names: Vec<String> = Vec::new();
        let mut seen: Vec<u64> = Vec::new();
        let mut current = entry.parent_id;
        let mut fuel: u128 = dirs.len() as u128 + 1;
        let mut done = false;
        while !done && current != 0
            invariant
                fuel <= dirs@.len() + 1,
                !done ==> ({
                    let whole = ancestor_names(dirs@, entry.parent_id, Seq::empty(), fuel0);
                    let here = ancestor_names(dirs@, current, seen@, fuel as nat);
                    whole == match here {
                        Some(rest) => Some(names@.map_values(|n: String| n@) + rest),
                        None => None,
                    }
                }),
                done ==> ancestor_names(dirs@, entry.parent_id, Seq::empty(), fuel0) == Some(
                    names@.map_values(|n: String| n@),
                ),
                fuel0 == dirs@.len() + 1,
                dirs@ == self.directories@,
            decreases fuel, if done { 0int } else { 1int },
        {
            if fuel == 0 {
                assert(ancestor_names(dirs@, current, seen@, fuel as nat) is None);
                return Err(io_error("APFS directory hierarchy contains a cycle"));
            }
            if crate::apfs::volume::contains_oid(&seen, current) {
                assert(ancestor_names(dirs@, current, seen@, fuel as nat) is None);
                return Err(io_error("APFS directory hierarchy contains a cycle"));
            }
            match find_entry(dirs, current) {
                None => {
                    done = true;
                    assert(names@.map_values(|n: String| n@) + Seq::<Seq<char>>::empty() == names@.map_values(|n: String| n@));
                },
                Some(j) => {
                    let ghost before = names@.map_values(|n: String| n@);
                    names.push(dirs[j].name.clone());
                    assert(names@.map_values(|n: String| n@) == before.push(dirs@[j as int].name@));
                    proof {
                        let tail = ancestor_names(dirs@, dirs@[j as int].parent_id, seen@.push(current), (fuel - 1) as nat);
                        if let Some(rest) = tail {
                            assert(before + (seq![dirs@[j as int].name@] + rest) == before.push(dirs@[j as int].name@) + rest);
                        }
                    }
                    seen.push(current);
                    current = dirs[j].parent_id;
                    fuel = fuel - 1;
                },
            }
        }
        proof {
            if !done {
                assert(names@.map_values(|n: String| n@) + Seq::<Seq<char>>::empty() == names@.map_values(|n: String| n@));
            }
        }
        let ghost all = names@.map_values(|n: String| n@);
        let mut path = String::new();
        let mut i = names.len();
        assert(names@.map_values(|n: String| n@).subrange(i as int, names@.len() as int) == Seq::<Seq<char>>::empty());
        while i > 0
            invariant
                i <= names@.len(),
                all == names@.map_values(|n: String| n@),
                path@ == reversed_path(all.subrange(i as int, all.len() as int)),
            decreases i,
        {
            i = i - 1;
            assert(all.subrange(i as int, all.len() as int).drop_first() == all.subrange(i + 1, all.len() as int));
            string_push(&mut path, '/');
            push_str(&mut path, names[i].as_str());
        }
        assert(all.subrange(0, all.len() as int) == all);
        string_push(&mut path, '/');
        push_str(&mut path, entry.name.as_str());
        Ok(path)
    }

    /// Whether the data of directory entry `entry` reads whole: its inode is
    /// indexed with a size, the size fits the container and memory, and its
    /// extents pass the layout check.
    pub open spec fn data_readable(&self, entry: ApfsDirectoryEntry, contents: Seq<u8>, range: ByteRange, block_size: u32) -> bool {
        let inode = self.inodes@[entry.file_id];
        let size = inode.data_stream_size->0;
        let extents = if self.extents@.contains_key(inode.private_id) {
            self.extents@[inode.private_id]@
        } else {
            Seq::empty()
        };
        &&& self.inodes@.contains_key(entry.file_id)
        &&& inode.data_stream_size is Some
        &&& is_pow2(block_size as int)
        &&& size <= range.length
        &&& size <= usize::MAX
        &&& range.spec_end() <= u64::MAX
        &&& layout_fits(extents, size as int, range.offset as int, range.spec_end(), block_size as int, contents.len() as int)
    }

    /// Reads a directory entry's data: its inode's `private_id` selects the
    /// file-extent records, and its data-stream field gives the file size.
    pub fn read_entry_data<D: BlockDevice>(
        &self,
        device: &D,
        container_range: ByteRange,
        block_size: u32,
        entry: &ApfsDirectoryEntry,
    ) -> (r: RecoveryResult<Vec<u8>>)
        ensures
            !self.inodes@.contains_key(entry.file_id) ==> r is Err,
            self.inodes@.contains_key(entry.file_id) && self.inodes@[entry.file_id].data_stream_size is None ==> r is Err,
            r matches Ok(out) ==> {
                let inode = self.inodes@[entry.file_id];
                let extents = if self.extents@.contains_key(inode.private_id) {
                    self.extents@[inode.private_id]@
                } else {
                    Seq::empty()
                };
                out@ == assembled(
                    extents,
                    inode.data_stream_size->0 as nat,
                    device.contents(),
                    container_range.offset as int,
                    block_size as int,
                )
            },
            readable(device) && self.data_readable(*entry, device.contents(), container_range, block_size) ==> r is Ok,
    {
        let inode = match self.inodes.get(&entry.file_id) {
            Some(v) => v,
            None => return Err(io_error("APFS directory entry has no inode record")),
        };
        let file_size = match inode.data_stream_size {
            Some(v) => v,
            None => return Err(io_error("APFS inode has no DSTREAM size")),
        };
        let empty: Vec<ApfsFileExtent> = Vec::new();
        let extents = match self.extents.get(&inode.private_id) {
            Some(v) => v,
            None => &empty,
        };
        read_file_extents(device, container_range, block_size, extents.as_slice(), file_size)
    }
}

} // verus!
