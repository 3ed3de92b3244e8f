//! Extended attributes held inline in catalog records.

use vstd::prelude::*;
use std::collections::BTreeMap;
use crate::apfs::catalog::ApfsCatalogRecord;
use crate::apfs::fsrecord::{
    decode_jkey, drec_name, drec_name_field, jkey_of, read_nul_terminated_name, APFS_TYPE_XATTR,
};
use crate::bytes::{le_u16, spec_le_u16};
use crate::range::{io_error, RecoveryError, RecoveryResult};
use crate::text::{chars_less, chars_of, text_less, lemma_text_less_order};

verus! {

broadcast use vstd::std_specs::btree::group_btree_axioms;

/// Flags of an attribute whose data is stored in the record itself.
pub const XATTR_DATA_EMBEDDED: u16 = 0x0000;
/// Flag of an attribute whose data lives in a separate data stream.
pub const XATTR_DATA_STREAM: u16 = 0x0001;

/// An extended attribute and the inode that owns it.
#[derive(Clone, Debug, PartialEq, Eq)]
pub struct ApfsXattr {
    pub inode_id: u64,
    pub name: String,
    pub flags: u16,
    pub data: Vec<u8>,
}

/// Decodes an extended-attribute key: a key header, a 16-bit name length
/// and a NUL-terminated UTF-8 name.
pub fn decode_xattr_key(data: &[u8]) -> (r: RecoveryResult<(u64, String)>)
    ensures
        r is Ok <==> data@.len() >= 11 && jkey_of(data@).record_type == APFS_TYPE_XATTR && drec_name(
            drec_name_field(data@),
        ) is Some,
        r matches Ok((id, name)) ==> id == jkey_of(data@).object_id && Some(name@) == drec_name(
            drec_name_field(data@),
        ),
{
    if data.len() < 11 {
        return Err(RecoveryError::LengthTooLarge { length: data.len() as u64 });
    }
    let key = decode_jkey(data)?;
    if key.record_type != APFS_TYPE_XATTR {
        return Err(io_error("APFS key is not an xattr"));
    }
    let name_len = le_u16(data, 8) as usize;
    if name_len == 0 || 10 + name_len > data.len() {
        return Err(
            RecoveryError::OutOfRange { offset: 10, length: name_len as u64, capacity: data.len() as u64 },
        );
    }
    let name = read_nul_terminated_name(data, 10, name_len)?;
    Ok((key.object_id, name))
}

/// Whether an attribute value is inline data this decoder accepts: its
/// declared length fits and its flags mark embedded data.
pub open spec fn xattr_value_ok(d: Seq<u8>) -> bool {
    &&& d.len() >= 4
    &&& 4 + spec_le_u16(d, 2) <= d.len()
    &&& spec_le_u16(d, 0) == XATTR_DATA_EMBEDDED
}

/// The inline data of an attribute value.
pub open spec fn xattr_value_data(d: Seq<u8>) -> Seq<u8> {
    d.subrange(4, 4 + spec_le_u16(d, 2))
}

/// Decodes an extended-attribute value: flags, data length, then inline
/// data. Stream-backed attributes are refused, since their data needs a
/// data-stream lookup rather than treating metadata as content.
pub fn decode_xattr_value(data: &[u8]) -> (r: RecoveryResult<(u16, Vec<u8>)>)
    ensures
        r is Ok <==> xattr_value_ok(data@),
        r matches Ok((flags, bytes)) ==> flags == XATTR_DATA_EMBEDDED && bytes@ == xattr_value_data(data@),
{
    if data.len() < 4 {
        return Err(RecoveryError::LengthTooLarge { length: data.len() as u64 });
    }
    let flags = le_u16(data, 0);
    let data_len = le_u16(data, 2) as usize;
    if 4 + data_len > data.len() {
        return Err(
            RecoveryError::OutOfRange { offset: 4, length: data_len as u64, capacity: data.len() as u64 },
        );
    }
    if flags & XATTR_DATA_STREAM != 0 {
        assert(flags != 0) by (bit_vector)
            requires
                flags & 1u16 != 0u16,
        ;
        return Err(io_error("APFS stream-backed xattr requires its data stream"));
    }
    if flags & !XATTR_DATA_STREAM != XATTR_DATA_EMBEDDED {
        assert(flags != 0) by (bit_vector)
            requires
                flags & !1u16 != 0u16,
        ;
        return Err(io_error("unsupported APFS xattr flags"));
    }
    assert(flags == 0) by (bit_vector)
        requires
            flags & 1u16 == 0u16,
            flags & !1u16 == 0u16,
    ;
    Ok((flags, crate::bytes::copy_range(data, 4, 4 + data_len)))
}

/// Whether a record is an extended attribute: its key header says so.
pub open spec fn is_xattr_record(rec: ApfsCatalogRecord) -> bool {
    rec.key@.len() >= 8 && jkey_of(rec.key@).record_type == APFS_TYPE_XATTR
}

/// Whether a record can be indexed: its key header reads, and an attribute
/// record's key and value decode.
pub open spec fn xattr_record_ok(rec: ApfsCatalogRecord) -> bool {
    &&& rec.key@.len() >= 8
    &&& is_xattr_record(rec) ==> {
        &&& rec.key@.len() >= 11
        &&& drec_name(drec_name_field(rec.key@)) is Some
        &&& xattr_value_ok(rec.value@)
    }
}

/// Whether `x` is the attribute that record `rec` decodes to.
pub open spec fn xattr_from(x: ApfsXattr, rec: ApfsCatalogRecord) -> bool {
    &&& is_xattr_record(rec)
    &&& x.inode_id == jkey_of(rec.key@).object_id
    &&& Some(x.name@) == drec_name(drec_name_field(rec.key@))
    &&& x.flags == XATTR_DATA_EMBEDDED
    &&& x.data@ == xattr_value_data(rec.value@)
}

/// What an attribute holds: its inode, name, flags and data.
pub open spec fn xattr_view(x: ApfsXattr) -> (u64, Seq<char>, u16, Seq<u8>) {
    (x.inode_id, x.name@, x.flags, x.data@)
}

/// The attribute an attribute record decodes to.
pub open spec fn record_xattr(rec: ApfsCatalogRecord) -> (u64, Seq<char>, u16, Seq<u8>) {
    (
        jkey_of(rec.key@).object_id,
        drec_name(drec_name_field(rec.key@))->0,
        XATTR_DATA_EMBEDDED,
        xattr_value_data(rec.value@),
    )
}

/// The attributes that the records give inode `id`, in record order.
pub open spec fn xattrs_for(records: Seq<ApfsCatalogRecord>, id: u64) -> Seq<(u64, Seq<char>, u16, Seq<u8>)>
    decreases records.len(),
{
    if records.len() == 0 {
        Seq::empty()
    } else {
        let prev = xattrs_for(records.drop_last(), id);
        let rec = records.last();
        if is_xattr_record(rec) && jkey_of(rec.key@).object_id == id {
            prev.push(record_xattr(rec))
        } else {
            prev
        }
    }
}

/// Whether attributes are ordered by name.
pub open spec fn sorted_by_name(s: Seq<ApfsXattr>) -> bool {
    forall|i: int, j: int| 0 <= i < j < s.len() ==> !text_less(#[trigger] s[j].name@, #[trigger] s[i].name@)
}

/// Inserts `x` after every attribute whose name does not sort after it.
fn insert_by_name(list: &mut Vec<ApfsXattr>, x: ApfsXattr)
    requires
        sorted_by_name(old(list)@),
    ensures
        sorted_by_name(final(list)@),
        final(list)@.to_multiset() == old(list)@.to_multiset().insert(x),
        exists|p: int| 0 <= p <= old(list)@.len() && final(list)@ == old(list)@.insert(p, x),
{
    let key = chars_of(x.name.as_str());
    let mut p: usize = 0;
    let mut found = false;
    while p < list.len() && !found
        invariant
            p <= list@.len(),
            key@ == x.name@,
            forall|j: int| 0 <= j < p ==> !text_less(x.name@, #[trigger] list@[j].name@),
            found ==> p < list@.len() && text_less(x.name@, list@[p as int].name@),
        decreases list@.len() - p, if found { 0int } else { 1int },
    {
        let other = chars_of(list[p].name.as_str());
        if chars_less(&key, &other) {
            found = true;
        } else {
            p = p + 1;
        }
    }
    let ghost before = list@;
    proof {
        vstd::seq_lib::to_multiset_insert(before, p as int, x);
    }
    list.insert(p, x);
    assert forall|i: int, j: int| 0 <= i < j < list@.len() implies !text_less(
        #[trigger] list@[j].name@,
        #[trigger] list@[i].name@,
    ) by {
        if j < p {
            assert(list@[i] == before[i] && list@[j] == before[j]);
        } else if j == p {
            assert(list@[i] == before[i]);
        } else if i == p {
            assert(list@[j] == before[j - 1]);
            assert(found);
            lemma_text_less_order(x.name@, before[p as int].name@, before[j - 1].name@, 0);
            lemma_text_less_order(before[j - 1].name@, x.name@, before[p as int].name@, 0);
            if j - 1 > p {
                assert(!text_less(before[j - 1].name@, before[p as int].name@));
            }
        } else if i < p {
            assert(list@[i] == before[i] && list@[j] == before[j - 1]);
            assert(!text_less(before[j - 1].name@, before[i].name@));
        } else {
            assert(list@[i] == before[i - 1] && list@[j] == before[j - 1]);
            assert(!text_less(before[j - 1].name@, before[i - 1].name@));
        }
    }
}

/// Indexes inline extended attributes by the object id of their inode,
/// each inode's attributes ordered by name (attributes of equal name keep
/// their record order). A malformed attribute record fails the whole index
/// rather than attaching bytes to the wrong inode.
pub fn index_xattrs(records: &[ApfsCatalogRecord]) -> (r: RecoveryResult<BTreeMap<u64, Vec<ApfsXattr>>>)
    ensures
        r is Ok <==> forall|k: int| 0 <= k < records@.len() ==> #[trigger] xattr_record_ok(records@[k]),
        r matches Ok(m) ==> {
            &&& forall|id: u64|
                #[trigger] m@.contains_key(id) <==> exists|k: int|
                    0 <= k < records@.len() && is_xattr_record(#[trigger] records@[k])
                        && jkey_of(records@[k].key@).object_id == id
            &&& forall|id: u64| #[trigger] m@.contains_key(id) ==> sorted_by_name(m@[id]@)
            &&& forall|id: u64, j: int|
                #![trigger m@[id]@[j]]
                m@.contains_key(id) && 0 <= j < m@[id]@.len() ==> m@[id]@[j].inode_id == id
                    && exists|k: int| 0 <= k < records@.len() && xattr_from(m@[id]@[j], #[trigger] records@[k])
            &&& forall|id: u64|
                #[trigger] m@.contains_key(id) ==> m@[id]@.map_values(|x: ApfsXattr| xattr_view(x)).to_multiset()
                    == xattrs_for(records@, id).to_multiset()
        },
{
    let mut result: BTreeMap<u64, Vec<ApfsXattr>> = BTreeMap::new();
    let mut k: usize = 0;
    while k < records.len()
        invariant
            k <= records@.len(),
            forall|q: int| 0 <= q < k ==> #[trigger] xattr_record_ok(records@[q]),
            forall|id: u64|
                #[trigger] result@.contains_key(id) <==> exists|q: int|
                    0 <= q < k && is_xattr_record(#[trigger] records@[q]) && jkey_of(records@[q].key@).object_id == id,
            forall|id: u64| #[trigger] result@.contains_key(id) ==> sorted_by_name(result@[id]@),
            forall|id: u64, j: int|
                #![trigger result@[id]@[j]]
                result@.contains_key(id) && 0 <= j < result@[id]@.len() ==> result@[id]@[j].inode_id == id
                    && exists|q: int| 0 <= q < k && xattr_from(result@[id]@[j], #[trigger] records@[q]),
            forall|id: u64|
                #[trigger] result@.contains_key(id) ==> result@[id]@.map_values(|x: ApfsXattr| xattr_view(x)).to_multiset()
                    == xattrs_for(records@.take(k as int), id).to_multiset(),
            forall|id: u64| !result@.contains_key(id) ==> #[trigger] xattrs_for(records@.take(k as int), id).len() == 0,
        decreases records@.len() - k,
    {
        let record = &records[k];
        let ghost rec = records@[k as int];
        assert(records@.take(k + 1).drop_last() == records@.take(k as int));
        assert(records@.take(k + 1).last() == rec);
        let key = match decode_jkey(record.key.as_slice()) {
            Ok(key) => key,
            Err(e) => {
                assert(!xattr_record_ok(records@[k as int]));
                return Err(e);
            },
        };
        if key.record_type == APFS_TYPE_XATTR {
            let (inode_id, name) = match decode_xattr_key(record.key.as_slice()) {
                Ok(v) => v,
                Err(e) => {
                    assert(!xattr_record_ok(records@[k as int]));
                    return Err(e);
                },
            };
            let (flags, data) = match decode_xattr_value(record.value.as_slice()) {
                Ok(v) => v,
                Err(e) => {
                    assert(!xattr_record_ok(records@[k as int]));
                    return Err(e);
                },
            };
            let x = ApfsXattr { inode_id, name, flags, data };
            assert(xattr_from(x, records@[k as int]));
            let ghost before = result@;
            let mut list = match result.remove(&inode_id) {
                Some(v) => v,
                None => Vec::new(),
            };
            let ghost old_list = list@;
            insert_by_name(&mut list, x);
            proof {
                let p = choose|p: int| 0 <= p <= old_list.len() && list@ == old_list.insert(p, x);
                let f = |y: ApfsXattr| xattr_view(y);
                assert(list@.map_values(f) =~= old_list.map_values(f).insert(p, xattr_view(x)));
                vstd::seq_lib::to_multiset_insert(old_list.map_values(f), p, xattr_view(x));
                assert(xattr_view(x) == record_xattr(rec));
                if !before.contains_key(inode_id) {
                    assert(old_list.map_values(f).to_multiset() =~= xattrs_for(records@.take(k as int), inode_id).to_multiset()) by {
                        assert(old_list.map_values(f) =~= Seq::<(u64, Seq<char>, u16, Seq<u8>)>::empty());
                        assert(xattrs_for(records@.take(k as int), inode_id) =~= Seq::<(u64, Seq<char>, u16, Seq<u8>)>::empty());
                    }
                }
                vstd::seq_lib::to_multiset_insert(
                    xattrs_for(records@.take(k as int), inode_id),
                    xattrs_for(records@.take(k as int), inode_id).len() as int,
                    record_xattr(rec),
                );
                assert(xattrs_for(records@.take(k as int), inode_id).insert(
                    xattrs_for(records@.take(k as int), inode_id).len() as int,
                    record_xattr(rec),
                ) =~= xattrs_for(records@.take(k + 1), inode_id));
            }
            proof {
                assert forall|j: int| 0 <= j < list@.len() implies list@[j].inode_id == inode_id
                    && exists|q: int| 0 <= q < k + 1 && xattr_from(list@[j], #[trigger] records@[q]) by {
                    vstd::seq_lib::to_multiset_contains(list@, list@[j]);
                    vstd::seq_lib::to_multiset_contains(old_list, list@[j]);
                    assert(list@.contains(list@[j]));
                    if list@[j] != x {
                        assert(old_list.contains(list@[j]));
                        let jj = choose|jj: int| 0 <= jj < old_list.len() && old_list[jj] == list@[j];
                        assert(before.contains_key(inode_id) && before[inode_id]@[jj] == list@[j]);
                    }
                }
            }
            result.insert(inode_id, list);
        }
        proof {
            assert forall|id: u64| #[trigger] result@.contains_key(id) && !(is_xattr_record(rec) && jkey_of(rec.key@).object_id == id)
                implies xattrs_for(records@.take(k + 1), id) == xattrs_for(records@.take(k as int), id) by {}
            assert forall|id: u64| !result@.contains_key(id) implies #[trigger] xattrs_for(records@.take(k + 1), id).len() == 0 by {
                assert(xattrs_for(records@.take(k + 1), id) == xattrs_for(records@.take(k as int), id));
            }
        }
        k = k + 1;
    }
    assert(records@.take(records@.len() as int) == records@);
    Ok(result)
}

} // verus!
