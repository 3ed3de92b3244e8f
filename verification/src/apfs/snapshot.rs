//! Volume snapshots: their metadata records, names, and mounting one.

use vstd::prelude::*;
use std::collections::BTreeMap;
use crate::apfs::catalog::{
    all_leaf_records, physical_leaves, physical_tree_ok, read_catalog_records, record_views, ApfsCatalogRecord,
};
use crate::apfs::fsrecord::{first_nul, jkey_of, lemma_first_nul};
use crate::apfs::{parse_volume_superblock, read_object, u32_at, u64_at, volume_of, ApfsContainer, ApfsVolume};
use crate::bytes::{le_u16, spec_le_u16, spec_le_u32, spec_le_u64};
use crate::device::{readable, BlockDevice};
use crate::range::{io_error, ByteRange, RecoveryError, RecoveryResult};
use crate::text::{utf8_decoding, utf8_string};

verus! {

broadcast use vstd::std_specs::btree::group_btree_axioms;

pub const APFS_TYPE_SNAP_METADATA: u8 = 1;
pub const APFS_TYPE_SNAP_NAME: u8 = 11;
pub const SNAP_METADATA_VALUE_LEN: usize = 50;
pub const SNAP_NAME_KEY_HEADER_LEN: usize = 10;
pub const MAX_SNAPSHOT_NAME_LEN: usize = 4096;

/// A snapshot of a volume, as its metadata and name records describe it.
#[derive(Clone, Debug, PartialEq, Eq)]
pub struct ApfsSnapshot {
    pub xid: u64,
    pub extentref_tree_oid: u64,
    pub sblock_oid: u64,
    pub create_time: u64,
    pub change_time: u64,
    pub inum: u64,
    pub extentref_tree_type: u32,
    pub flags: u32,
    pub name: Option<String>,
}

/// The object id and record type of a key.
fn jkey(data: &[u8]) -> (r: RecoveryResult<(u64, u8)>)
    ensures
        r is Ok <==> data@.len() >= 8,
        r matches Ok((id, t)) ==> id == jkey_of(data@).object_id && t == jkey_of(data@).record_type,
{
    let key = crate::apfs::fsrecord::decode_jkey(data)?;
    Ok((key.object_id, key.record_type))
}

/// The name a snapshot name field holds: its bytes up to the first NUL,
/// decoded as UTF-8; `None` when empty, longer than the name limit, or not
/// UTF-8.
pub open spec fn snapshot_name(field: Seq<u8>) -> Option<Seq<char>> {
    let n = first_nul(field);
    if n == 0 || n > MAX_SNAPSHOT_NAME_LEN {
        None
    } else {
        utf8_decoding(field.take(n))
    }
}

/// Decodes a snapshot name field.
fn utf8_name(bytes: &[u8]) -> (r: RecoveryResult<String>)
    ensures
        match snapshot_name(bytes@) {
            Some(n) => r matches Ok(s) && s@ == n,
            None => r is Err,
        },
{
    let mut nul: usize = 0;
    while nul < bytes.len() && bytes[nul] != 0
        invariant
            nul <= bytes@.len(),
            forall|j: int| 0 <= j < nul ==> bytes@[j] != 0,
        decreases bytes@.len() - nul,
    {
        nul = nul + 1;
    }
    proof {
        lemma_first_nul(bytes@, nul as int);
    }
    if nul == 0 || nul > MAX_SNAPSHOT_NAME_LEN {
        return Err(io_error("APFS snapshot has an invalid name length"));
    }
    let head = crate::bytes::copy_range(bytes, 0, nul);
    assert(head@ == bytes@.take(nul as int));
    match utf8_string(head.as_slice()) {
        Some(s) => Ok(s),
        None => Err(io_error("APFS snapshot name is not valid UTF-8")),
    }
}

/// The name field of a snapshot metadata value, if its length fits.
pub open spec fn metadata_name_field(v: Seq<u8>) -> Option<Seq<u8>> {
    let n = spec_le_u16(v, 48);
    if v.len() < SNAP_METADATA_VALUE_LEN || n == 0 || n > MAX_SNAPSHOT_NAME_LEN || 50 + n > v.len() {
        None
    } else {
        Some(v.subrange(50, 50 + n))
    }
}

/// Whether a metadata record decodes.
pub open spec fn metadata_ok(rec: ApfsCatalogRecord) -> bool {
    &&& rec.key@.len() >= 8
    &&& jkey_of(rec.key@).record_type == APFS_TYPE_SNAP_METADATA
    &&& (metadata_name_field(rec.value@) matches Some(f) && snapshot_name(f) is Some)
}

/// Whether `s` is what metadata record `rec` describes, its name aside.
pub open spec fn snapshot_fields_from(s: ApfsSnapshot, rec: ApfsCatalogRecord) -> bool {
    let v = rec.value@;
    &&& s.xid == jkey_of(rec.key@).object_id
    &&& s.extentref_tree_oid == spec_le_u64(v, 0)
    &&& s.sblock_oid == spec_le_u64(v, 8)
    &&& s.create_time == spec_le_u64(v, 16)
    &&& s.change_time == spec_le_u64(v, 24)
    &&& s.inum == spec_le_u64(v, 32)
    &&& s.extentref_tree_type == spec_le_u32(v, 40)
    &&& s.flags == spec_le_u32(v, 44)
}

/// Decodes a snapshot metadata record.
fn decode_metadata(record: &ApfsCatalogRecord) -> (r: RecoveryResult<ApfsSnapshot>)
    ensures
        r is Ok <==> metadata_ok(*record),
        r matches Ok(s) ==> snapshot_fields_from(s, *record) && (s.name matches Some(n) && Some(n@)
            == snapshot_name(metadata_name_field(record.value@)->0)),
{
    let (xid, record_type) = jkey(record.key.as_slice())?;
    if record_type != APFS_TYPE_SNAP_METADATA {
        return Err(io_error("APFS record is not snapshot metadata"));
    }
    let value = record.value.as_slice();
    if value.len() < SNAP_METADATA_VALUE_LEN {
        return Err(RecoveryError::LengthTooLarge { length: value.len() as u64 });
    }
    let name_len = le_u16(value, 48) as usize;
    if name_len == 0 || name_len > MAX_SNAPSHOT_NAME_LEN || 50 + name_len > value.len() {
        return Err(RecoveryError::OutOfRange { offset: 50, length: name_len as u64, capacity: value.len() as u64 });
    }
    let field = crate::bytes::copy_range(value, 50, 50 + name_len);
    let name = utf8_name(field.as_slice())?;
    Ok(
        ApfsSnapshot {
            xid,
            extentref_tree_oid: u64_at(value, 0),
            sblock_oid: u64_at(value, 8),
            create_time: u64_at(value, 16),
            change_time: u64_at(value, 24),
            inum: u64_at(value, 32),
            extentref_tree_type: u32_at(value, 40),
            flags: u32_at(value, 44),
            name: Some(name),
        },
    )
}

/// The name field of a snapshot name key, if its length fits.
pub open spec fn name_key_field(k: Seq<u8>) -> Option<Seq<u8>> {
    let n = spec_le_u16(k, 8);
    if k.len() < SNAP_NAME_KEY_HEADER_LEN || n == 0 || n > MAX_SNAPSHOT_NAME_LEN || 10 + n > k.len() {
        None
    } else {
        Some(k.subrange(10, 10 + n))
    }
}

/// Whether a name record decodes.
pub open spec fn name_record_ok(rec: ApfsCatalogRecord) -> bool {
    &&& rec.key@.len() >= 8
    &&& jkey_of(rec.key@).record_type == APFS_TYPE_SNAP_NAME
    &&& rec.value@.len() >= 8
    &&& (name_key_field(rec.key@) matches Some(f) && snapshot_name(f) is Some)
}

/// Decodes a snapshot name record into the name and the transaction id of
/// the snapshot it names.
fn decode_name(record: &ApfsCatalogRecord) -> (r: RecoveryResult<(String, u64)>)
    ensures
        r is Ok <==> name_record_ok(*record),
        r matches Ok((name, xid)) ==> Some(name@) == snapshot_name(name_key_field(record.key@)->0) && xid
            == spec_le_u64(record.value@, 0),
{
    let (_, record_type) = jkey(record.key.as_slice())?;
    if record_type != APFS_TYPE_SNAP_NAME {
        return Err(io_error("APFS record is not a snapshot name"));
    }
    let key = record.key.as_slice();
    let value = record.value.as_slice();
    if key.len() < SNAP_NAME_KEY_HEADER_LEN || value.len() < 8 {
        let shorter = if key.len() < value.len() {
            key.len()
        } else {
            value.len()
        };
        return Err(RecoveryError::LengthTooLarge { length: shorter as u64 });
    }
    let name_len = le_u16(key, 8) as usize;
    if name_len == 0 || name_len > MAX_SNAPSHOT_NAME_LEN || 10 + name_len > key.len() {
        return Err(RecoveryError::OutOfRange { offset: 10, length: name_len as u64, capacity: key.len() as u64 });
    }
    let field = crate::bytes::copy_range(key, 10, 10 + name_len);
    let name = utf8_name(field.as_slice())?;
    Ok((name, u64_at(value, 0)))
}

/// Whether a record can be indexed: its key header reads, and a metadata or
/// name record decodes.
pub open spec fn snapshot_record_ok(rec: ApfsCatalogRecord) -> bool {
    &&& rec.key@.len() >= 8
    &&& jkey_of(rec.key@).record_type == APFS_TYPE_SNAP_METADATA ==> metadata_ok(rec)
    &&& jkey_of(rec.key@).record_type == APFS_TYPE_SNAP_NAME ==> name_record_ok(rec)
}

/// Whether snapshots are ordered by transaction id.
pub open spec fn sorted_by_xid(s: Seq<ApfsSnapshot>) -> bool {
    forall|i: int, j: int| 0 <= i < j < s.len() ==> #[trigger] s[i].xid <= #[trigger] s[j].xid
}

/// Inserts `s` after every snapshot whose transaction id is not greater.
fn insert_by_xid(list: &mut Vec<ApfsSnapshot>, s: ApfsSnapshot)
    requires
        sorted_by_xid(old(list)@),
    ensures
        sorted_by_xid(final(list)@),
        final(list)@.to_multiset() == old(list)@.to_multiset().insert(s),
        exists|p: int| 0 <= p <= old(list)@.len() && final(list)@ == old(list)@.insert(p, s),
{
    let mut p: usize = 0;
    while p < list.len() && list[p].xid <= s.xid
        invariant
            p <= list@.len(),
            forall|j: int| 0 <= j < p ==> #[trigger] list@[j].xid <= s.xid,
        decreases list@.len() - p,
    {
        p = p + 1;
    }
    let ghost before = list@;
    proof {
        vstd::seq_lib::to_multiset_insert(before, p as int, s);
    }
    list.insert(p, s);
    assert forall|i: int, j: int| 0 <= i < j < list@.len() implies #[trigger] list@[i].xid <= #[trigger] list@[j].xid by {
        if j < p {
            assert(list@[i] == before[i] && list@[j] == before[j]);
        } else if j == p {
            assert(list@[i] == before[i]);
        } else if i == p {
            assert(list@[j] == before[j - 1]);
            assert(before[p as int].xid <= before[j - 1].xid);
        } else if i < p {
            assert(list@[i] == before[i] && list@[j] == before[j - 1]);
        } else {
            assert(list@[i] == before[i - 1] && list@[j] == before[j - 1]);
        }
    }
}

/// Whether `s` is described by some metadata record among `records`, its
/// name aside.
pub open spec fn from_metadata_record(s: ApfsSnapshot, records: Seq<ApfsCatalogRecord>) -> bool {
    exists|q: int|
        0 <= q < records.len() && jkey_of(records[q].key@).record_type == APFS_TYPE_SNAP_METADATA
            && #[trigger] snapshot_fields_from(s, records[q])
}

/// The positions of the metadata records among the first `n` records, in
/// order.
pub open spec fn metadata_positions(records: Seq<ApfsCatalogRecord>, n: int) -> Seq<int>
    decreases n,
{
    if n <= 0 {
        Seq::empty()
    } else if jkey_of(records[n - 1].key@).record_type == APFS_TYPE_SNAP_METADATA {
        metadata_positions(records, n - 1).push(n - 1)
    } else {
        metadata_positions(records, n - 1)
    }
}

/// The name the last name record among the first `n` records gives the
/// snapshot with transaction id `xid`, if any does.
pub open spec fn last_snapshot_name(records: Seq<ApfsCatalogRecord>, xid: u64, n: int) -> Option<Seq<char>>
    decreases n,
{
    if n <= 0 {
        None
    } else if jkey_of(records[n - 1].key@).record_type == APFS_TYPE_SNAP_NAME && spec_le_u64(records[n - 1].value@, 0)
        == xid {
        snapshot_name(name_key_field(records[n - 1].key@)->0)
    } else {
        last_snapshot_name(records, xid, n - 1)
    }
}

/// Whether `s` is the snapshot metadata record `q` of `records` describes:
/// its fields, and its name, which is the one the last name record for its
/// transaction id gives, else the metadata record's own.
pub open spec fn snapshot_from_record(s: ApfsSnapshot, records: Seq<ApfsCatalogRecord>, q: int) -> bool {
    &&& snapshot_fields_from(s, records[q])
    &&& s.name matches Some(nm) && Some(nm@) == match last_snapshot_name(records, s.xid, records.len() as int) {
        Some(n) => Some(n),
        None => snapshot_name(metadata_name_field(records[q].value@)->0),
    }
}

/// Whether `snaps` holds one snapshot for each metadata record of
/// `records`, each as that record and the name records describe it.
pub open spec fn indexed_snapshots(snaps: Seq<ApfsSnapshot>, records: Seq<ApfsCatalogRecord>) -> bool {
    let meta = metadata_positions(records, records.len() as int);
    exists|order: Seq<int>|
        #![trigger order.no_duplicates()]
        order.len() == snaps.len() && snaps.len() == meta.len() && order.no_duplicates() && forall|i: int|
            0 <= i < snaps.len() ==> 0 <= #[trigger] order[i] < meta.len() && snapshot_from_record(
                snaps[i],
                records,
                meta[order[i]],
            )
}

/// Indexes snapshot metadata and name records: one snapshot per metadata
/// record, named by the last name record that points at its transaction id
/// (else by its own metadata name), ordered by transaction id. A record
/// that does not decode fails the index.
pub fn index_snapshot_records(records: &[ApfsCatalogRecord]) -> (r: RecoveryResult<Vec<ApfsSnapshot>>)
    ensures
        r is Ok <==> forall|k: int| #![trigger records@[k]] 0 <= k < records@.len() ==> snapshot_record_ok(records@[k]),
        r matches Ok(snaps) ==> {
            &&& sorted_by_xid(snaps@)
            &&& forall|i: int|
                0 <= i < snaps@.len() ==> #[trigger] from_metadata_record(snaps@[i], records@)
            &&& indexed_snapshots(snaps@, records@)
        },
{
    let ghost recs = records@;
    let mut snapshots: Vec<ApfsSnapshot> = Vec::new();
    let mut names: BTreeMap<u64, String> = BTreeMap::new();
    let mut k: usize = 0;
    while k < records.len()
        invariant
            k <= records@.len(),
            recs == records@,
            forall|q: int| #![trigger records@[q]] 0 <= q < k ==> snapshot_record_ok(records@[q]),
            snapshots@.len() == metadata_positions(recs, k as int).len(),
            forall|i: int|
                0 <= i < snapshots@.len() ==> {
                    let q = #[trigger] metadata_positions(recs, k as int)[i];
                    &&& 0 <= q < k
                    &&& jkey_of(recs[q].key@).record_type == APFS_TYPE_SNAP_METADATA
                    &&& snapshot_fields_from(snapshots@[i], recs[q])
                    &&& snapshots@[i].name matches Some(nm) && Some(nm@) == snapshot_name(
                        metadata_name_field(recs[q].value@)->0,
                    )
                },
            forall|x: u64| #[trigger] names@.contains_key(x) <==> last_snapshot_name(recs, x, k as int) is Some,
            forall|x: u64|
                #[trigger] names@.contains_key(x) ==> Some(names@[x]@) == last_snapshot_name(recs, x, k as int),
        decreases records@.len() - k,
    {
        let record = &records[k];
        let (_, record_type) = match jkey(record.key.as_slice()) {
            Ok(v) => v,
            Err(e) => {
                assert(!snapshot_record_ok(records@[k as int]));
                return Err(e);
            },
        };
        let ghost prior = metadata_positions(recs, k as int);
        if record_type == APFS_TYPE_SNAP_METADATA {
            let snap = match decode_metadata(record) {
                Ok(v) => v,
                Err(e) => {
                    assert(!snapshot_record_ok(records@[k as int]));
                    return Err(e);
                },
            };
            let ghost before = snapshots@;
            snapshots.push(snap);
            assert(metadata_positions(recs, k + 1) == prior.push(k as int));
            assert forall|i: int| 0 <= i < snapshots@.len() implies {
                let q = #[trigger] metadata_positions(recs, k + 1)[i];
                &&& 0 <= q < k + 1
                &&& jkey_of(recs[q].key@).record_type == APFS_TYPE_SNAP_METADATA
                &&& snapshot_fields_from(snapshots@[i], recs[q])
                &&& snapshots@[i].name matches Some(nm) && Some(nm@) == snapshot_name(metadata_name_field(recs[q].value@)->0)
            } by {
                if i < before.len() {
                    assert(snapshots@[i] == before[i]);
                    assert(metadata_positions(recs, k + 1)[i] == prior[i]);
                }
            }
            assert forall|x: u64| last_snapshot_name(recs, x, k + 1) == last_snapshot_name(recs, x, k as int) by {}
        } else if record_type == APFS_TYPE_SNAP_NAME {
            let (name, xid) = match decode_name(record) {
                Ok(v) => v,
                Err(e) => {
                    assert(!snapshot_record_ok(records@[k as int]));
                    return Err(e);
                },
            };
            names.insert(xid, name);
            assert(metadata_positions(recs, k + 1) == prior);
            assert forall|x: u64| #[trigger] names@.contains_key(x) <==> last_snapshot_name(recs, x, k + 1) is Some by {}
            assert forall|x: u64| #[trigger] names@.contains_key(x) implies Some(names@[x]@) == last_snapshot_name(
                recs,
                x,
                k + 1,
            ) by {}
        } else {
            assert(metadata_positions(recs, k + 1) == prior);
            assert forall|x: u64| last_snapshot_name(recs, x, k + 1) == last_snapshot_name(recs, x, k as int) by {}
        }
        k = k + 1;
    }
    let ghost meta = metadata_positions(recs, recs.len() as int);
    let mut sorted: Vec<ApfsSnapshot> = Vec::new();
    let ghost mut order: Seq<int> = Seq::empty();
    let mut i: usize = 0;
    while i < snapshots.len()
        invariant
            i <= snapshots@.len(),
            recs == records@,
            snapshots@.len() == meta.len(),
            sorted_by_xid(sorted@),
            forall|j: int|
                0 <= j < snapshots@.len() ==> {
                    let q = #[trigger] meta[j];
                    &&& 0 <= q < recs.len()
                    &&& jkey_of(recs[q].key@).record_type == APFS_TYPE_SNAP_METADATA
                    &&& snapshot_fields_from(snapshots@[j], recs[q])
                    &&& snapshots@[j].name matches Some(nm) && Some(nm@) == snapshot_name(
                        metadata_name_field(recs[q].value@)->0,
                    )
                },
            forall|x: u64| #[trigger] names@.contains_key(x) <==> last_snapshot_name(recs, x, recs.len() as int) is Some,
            forall|x: u64|
                #[trigger] names@.contains_key(x) ==> Some(names@[x]@) == last_snapshot_name(recs, x, recs.len() as int),
            order.len() == sorted@.len(),
            sorted@.len() == i,
            order.no_duplicates(),
            forall|j: int|
                0 <= j < sorted@.len() ==> 0 <= #[trigger] order[j] < i && snapshot_from_record(
                    sorted@[j],
                    recs,
                    meta[order[j]],
                ),
        decreases snapshots@.len() - i,
    {
        let s = &snapshots[i];
        let name = match names.get(&s.xid) {
            Some(n) => Some(n.clone()),
            None => match &s.name {
                Some(n) => Some(n.clone()),
                None => None,
            },
        };
        let snap = ApfsSnapshot {
            xid: s.xid,
            extentref_tree_oid: s.extentref_tree_oid,
            sblock_oid: s.sblock_oid,
            create_time: s.create_time,
            change_time: s.change_time,
            inum: s.inum,
            extentref_tree_type: s.extentref_tree_type,
            flags: s.flags,
            name,
        };
        let ghost q = meta[i as int];
        assert(snapshot_from_record(snap, recs, q));
        let ghost before = sorted@;
        let ghost old_order = order;
        insert_by_xid(&mut sorted, snap);
        proof {
            let p = choose|p: int| 0 <= p <= before.len() && sorted@ == before.insert(p, snap);
            order = old_order.insert(p, i as int);
            assert forall|a: int, b: int| 0 <= a < order.len() && 0 <= b < order.len() && a != b implies order[a] != order[b] by {
                if a < p && b < p {
                    assert(order[a] == old_order[a] && order[b] == old_order[b]);
                } else if a < p && b > p {
                    assert(order[a] == old_order[a] && order[b] == old_order[b - 1]);
                } else if a > p && b < p {
                    assert(order[a] == old_order[a - 1] && order[b] == old_order[b]);
                } else if a > p && b > p {
                    assert(order[a] == old_order[a - 1] && order[b] == old_order[b - 1]);
                } else if a == p {
                    if b < p {
                        assert(order[b] == old_order[b]);
                    } else {
                        assert(order[b] == old_order[b - 1]);
                    }
                } else {
                    if a < p {
                        assert(order[a] == old_order[a]);
                    } else {
                        assert(order[a] == old_order[a - 1]);
                    }
                }
            }
            assert forall|j: int| 0 <= j < sorted@.len() implies 0 <= #[trigger] order[j] < i + 1 && snapshot_from_record(
                sorted@[j],
                recs,
                meta[order[j]],
            ) by {
                if j < p {
                    assert(sorted@[j] == before[j] && order[j] == old_order[j]);
                } else if j > p {
                    assert(sorted@[j] == before[j - 1] && order[j] == old_order[j - 1]);
                }
            }
        }
        i = i + 1;
    }
    proof {
        assert forall|j: int| 0 <= j < sorted@.len() implies #[trigger] from_metadata_record(sorted@[j], records@) by {
            assert(snapshot_from_record(sorted@[j], recs, meta[order[j]]));
        }
        assert(indexed_snapshots(sorted@, records@));
    }
    Ok(sorted)
}

/// Lists a volume's snapshots from its snapshot-metadata tree; a volume
/// without one has none.
pub fn list_snapshots<D: BlockDevice>(
    device: &D,
    range: ByteRange,
    container: &ApfsContainer,
    volume: &ApfsVolume,
) -> (r: RecoveryResult<Vec<ApfsSnapshot>>)
    ensures
        volume.snap_meta_tree_oid == 0 ==> (r matches Ok(v) && v@.len() == 0),
        volume.snap_meta_tree_oid != 0 && volume.snap_meta_tree_oid >= container.block_count ==> r is Err,
        r matches Ok(v) ==> volume.snap_meta_tree_oid != 0 ==> exists|records: Seq<ApfsCatalogRecord>|
            #[trigger] all_leaf_records(device.contents(), range.offset as int, *container, records) && sorted_by_xid(v@)
                && forall|i: int| 0 <= i < v@.len() ==> #[trigger] from_metadata_record(v@[i], records),
        r matches Ok(v) ==> volume.snap_meta_tree_oid != 0 ==> exists|records: Seq<ApfsCatalogRecord>|
            #[trigger] all_leaf_records(device.contents(), range.offset as int, *container, records)
                && indexed_snapshots(v@, records),
        readable(device) && volume.snap_meta_tree_oid != 0 && physical_tree_ok(
            device.contents(),
            range,
            *container,
            volume.snap_meta_tree_oid,
            0,
            Seq::empty(),
        ) ==> exists|records: Seq<ApfsCatalogRecord>|
            #[trigger] record_views(records) == physical_leaves(
                device.contents(),
                range,
                *container,
                volume.snap_meta_tree_oid,
                0,
                Seq::empty(),
            ) && (r is Ok <==> forall|k: int| #![trigger records[k]] 0 <= k < records.len() ==> snapshot_record_ok(records[k]))
                && (r matches Ok(v) ==> sorted_by_xid(v@) && indexed_snapshots(v@, records)),
{
    if volume.snap_meta_tree_oid == 0 {
        return Ok(Vec::new());
    }
    let records = read_catalog_records(device, range, container, volume.snap_meta_tree_oid)?;
    let r = index_snapshot_records(records.as_slice());
    proof {
        if r is Ok {
            assert(all_leaf_records(device.contents(), range.offset as int, *container, records@));
        }
        assert(record_views(records@) == record_views(records@));
    }
    r
}

/// Reads the volume superblock a snapshot points at. Its object map is the
/// snapshot's own: the live volume's object map is never put in its place,
/// which would mix snapshot metadata with current objects.
pub fn mount_snapshot<D: BlockDevice>(
    device: &D,
    range: ByteRange,
    container: &ApfsContainer,
    live_volume: &ApfsVolume,
    snapshot: &ApfsSnapshot,
) -> (r: RecoveryResult<ApfsVolume>)
    ensures
        snapshot.sblock_oid >= container.block_count ==> r is Err,
        r matches Ok(v) ==> v == volume_of(
            crate::apfs::omap_lookup::object_block(device.contents(), range.offset as int, *container, snapshot.sblock_oid),
        ),
        ({
            let b = crate::apfs::omap_lookup::object_block(device.contents(), range.offset as int, *container, snapshot.sblock_oid);
            &&& crate::device::readable(device)
            &&& crate::apfs::object_readable(device.contents(), range, *container, snapshot.sblock_oid)
            &&& b.len() >= 160
            &&& crate::bytes::spec_le_u32(b, 32) == crate::apfs::APSB_MAGIC
        }) ==> r is Ok,
{
    if snapshot.sblock_oid >= container.block_count {
        return Err(
            RecoveryError::OutOfRange { offset: snapshot.sblock_oid, length: 1, capacity: container.block_count },
        );
    }
    let block = read_object(device, range, container, snapshot.sblock_oid)?;
    parse_volume_superblock(block.as_slice())
}

} // verus!
