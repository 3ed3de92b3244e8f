//! Filesystem records: the keys and fixed-size values of the catalog tree.

use vstd::prelude::*;
use crate::apfs::{u32_at, u64_at};
use crate::bytes::{le_u16, le_u32, spec_le_u16, spec_le_u32, spec_le_u64};
use crate::range::{io_error, RecoveryError, RecoveryResult};
use crate::text::{utf8_decoding, utf8_string};

verus! {

pub const APFS_TYPE_INODE: u8 = 3;
pub const APFS_TYPE_XATTR: u8 = 4;
pub const APFS_TYPE_FILE_EXTENT: u8 = 8;
pub const APFS_TYPE_DIR_REC: u8 = 9;
pub const OBJ_ID_MASK: u64 = 0x0fff_ffff_ffff_ffff;
pub const OBJ_TYPE_SHIFT: u64 = 60;
pub const J_FILE_EXTENT_LEN_MASK: u64 = 0x00ff_ffff_ffff_ffff;
/// Bits of an inode's mode that hold the file type.
pub const S_IFMT: u16 = 0o170000;
/// The file type of a regular file.
pub const S_IFREG: u16 = 0o100000;
/// The file type of a symbolic link.
pub const S_IFLNK: u16 = 0o120000;
/// Size of the fixed part of an inode value; extended fields follow it.
pub const J_INODE_VAL_FIXED_SIZE: usize = 92;
/// The extended-field type that carries a data stream.
pub const INO_EXT_TYPE_DSTREAM: u8 = 8;

/// The common header of every catalog key.
#[derive(Clone, Copy, Debug, PartialEq, Eq)]
pub struct ApfsJKey {
    pub object_id: u64,
    pub record_type: u8,
}

/// The fixed part of an inode record.
#[derive(Clone, Copy, Debug, PartialEq, Eq)]
pub struct ApfsInodeValue {
    pub parent_id: u64,
    pub private_id: u64,
    pub create_time: u64,
    pub modify_time: u64,
    pub change_time: u64,
    pub access_time: u64,
    pub internal_flags: u64,
    pub nchildren_or_nlink: u32,
    pub bsd_flags: u32,
    pub owner: u32,
    pub group: u32,
    pub mode: u16,
    /// The logical size its data-stream extended field records, if any.
    pub data_stream_size: Option<u64>,
}

/// A directory record's value.
#[derive(Clone, Copy, Debug, PartialEq, Eq)]
pub struct ApfsDirRecordValue {
    pub file_id: u64,
    pub date_added: u64,
    pub flags: u16,
}

/// A file extent record's value.
#[derive(Clone, Copy, Debug, PartialEq, Eq)]
pub struct ApfsFileExtentValue {
    pub length_and_flags: u64,
    pub physical_block: u64,
    pub crypto_id: u64,
}

/// Fails unless `data` holds at least `length` bytes.
fn need(data: &[u8], length: usize) -> (r: RecoveryResult<()>)
    ensures
        r is Ok <==> data@.len() >= length,
        r matches Err(e) ==> e == (RecoveryError::LengthTooLarge { length: data@.len() as u64 }),
{
    if data.len() < length {
        return Err(RecoveryError::LengthTooLarge { length: data.len() as u64 });
    }
    Ok(())
}

/// The key header an 8-byte packed id and type encode.
pub open spec fn jkey_of(d: Seq<u8>) -> ApfsJKey {
    let packed = spec_le_u64(d, 0) as u64;
    ApfsJKey { object_id: packed & OBJ_ID_MASK, record_type: (packed >> OBJ_TYPE_SHIFT) as u8 }
}

/// Decodes a catalog key header.
pub fn decode_jkey(data: &[u8]) -> (r: RecoveryResult<ApfsJKey>)
    ensures
        r is Ok <==> data@.len() >= 8,
        r matches Ok(k) ==> k == jkey_of(data@),
{
    need(data, 8)?;
    let packed = u64_at(data, 0);
    let shifted = packed >> OBJ_TYPE_SHIFT;
    assert(shifted < 16) by (bit_vector)
        requires
            shifted == packed >> 60u64,
    ;
    Ok(ApfsJKey { object_id: packed & OBJ_ID_MASK, record_type: shifted as u8 })
}

/// The inode fields a record's fixed part encodes.
pub open spec fn inode_of(d: Seq<u8>) -> ApfsInodeValue {
    ApfsInodeValue {
        parent_id: spec_le_u64(d, 0) as u64,
        private_id: spec_le_u64(d, 8) as u64,
        create_time: spec_le_u64(d, 16) as u64,
        modify_time: spec_le_u64(d, 24) as u64,
        change_time: spec_le_u64(d, 32) as u64,
        access_time: spec_le_u64(d, 40) as u64,
        internal_flags: spec_le_u64(d, 48) as u64,
        nchildren_or_nlink: spec_le_u32(d, 56) as u32,
        bsd_flags: spec_le_u32(d, 68) as u32,
        owner: spec_le_u32(d, 72) as u32,
        group: spec_le_u32(d, 76) as u32,
        mode: spec_le_u16(d, 80) as u16,
        data_stream_size: dstream_size_of(d),
    }
}

/// How many extended fields an inode value declares.
pub open spec fn xfield_count(d: Seq<u8>) -> int {
    spec_le_u16(d, J_INODE_VAL_FIXED_SIZE as int)
}

/// The type of the `i`-th extended field.
pub open spec fn xfield_type(d: Seq<u8>, i: int) -> u8 {
    d[J_INODE_VAL_FIXED_SIZE + 4 + 4 * i]
}

/// The data size of the `i`-th extended field.
pub open spec fn xfield_size(d: Seq<u8>, i: int) -> int {
    spec_le_u16(d, J_INODE_VAL_FIXED_SIZE + 4 + 4 * i + 2)
}

/// `n` rounded up to a multiple of eight: extended-field data is 8-aligned.
pub open spec fn round_up8(n: int) -> int {
    (n + 7) / 8 * 8
}

/// Where the data of the `i`-th extended field starts: after the field
/// descriptors and the aligned data of the fields before it.
pub open spec fn xfield_data_offset(d: Seq<u8>, i: int) -> int
    decreases i,
{
    if i <= 0 {
        J_INODE_VAL_FIXED_SIZE + 4 + 4 * xfield_count(d)
    } else {
        xfield_data_offset(d, i - 1) + round_up8(xfield_size(d, i - 1))
    }
}

/// The size recorded by the first data-stream field from the `i`-th on.
pub open spec fn dstream_size_from(d: Seq<u8>, i: int) -> Option<u64>
    decreases xfield_count(d) - i,
{
    if i < 0 || i >= xfield_count(d) {
        None
    } else if xfield_type(d, i) == INO_EXT_TYPE_DSTREAM {
        let at = xfield_data_offset(d, i);
        if xfield_size(d, i) >= 8 && at + 8 <= d.len() {
            Some(spec_le_u64(d, at) as u64)
        } else {
            None
        }
    } else {
        dstream_size_from(d, i + 1)
    }
}

/// The logical size an inode value's data-stream field records: `None` when
/// it has no extended fields, no data-stream field, or their descriptors do
/// not fit the value.
pub open spec fn dstream_size_of(d: Seq<u8>) -> Option<u64> {
    if d.len() < J_INODE_VAL_FIXED_SIZE + 4 || J_INODE_VAL_FIXED_SIZE + 4 + 4 * xfield_count(d) > d.len() {
        None
    } else {
        dstream_size_from(d, 0)
    }
}

/// Reads the data-stream size from an inode value's extended fields.
fn dstream_size(data: &[u8]) -> (r: Option<u64>)
    ensures
        r == dstream_size_of(data@),
{
    if data.len() < J_INODE_VAL_FIXED_SIZE + 4 {
        return None;
    }
    let count = le_u16(data, J_INODE_VAL_FIXED_SIZE) as usize;
    if J_INODE_VAL_FIXED_SIZE + 4 + 4 * count > data.len() {
        return None;
    }
    let mut offset: u64 = (J_INODE_VAL_FIXED_SIZE + 4 + 4 * count) as u64;
    let mut i: usize = 0;
    while i < count
        invariant
            count == xfield_count(data@),
            J_INODE_VAL_FIXED_SIZE + 4 + 4 * count <= data@.len(),
            i <= count,
            offset == xfield_data_offset(data@, i as int),
            offset <= J_INODE_VAL_FIXED_SIZE + 4 + 4 * count + i * 65536,
            dstream_size_of(data@) == dstream_size_from(data@, i as int),
        decreases count - i,
    {
        let desc = J_INODE_VAL_FIXED_SIZE + 4 + 4 * i;
        let kind = data[desc];
        let size = le_u16(data, desc + 2) as u64;
        assert(size == xfield_size(data@, i as int));
        if kind == INO_EXT_TYPE_DSTREAM {
            if size >= 8 && offset + 8 <= data.len() as u64 {
                return Some(crate::bytes::le_u64(data, offset as usize));
            }
            return None;
        }
        offset = offset + (size + 7) / 8 * 8;
        i = i + 1;
    }
    None
}

/// Decodes the fixed 92-byte part of an inode record; extended fields follow
/// it.
pub fn decode_inode_value(data: &[u8]) -> (r: RecoveryResult<ApfsInodeValue>)
    ensures
        r is Ok <==> data@.len() >= 92,
        r matches Ok(v) ==> v == inode_of(data@),
{
    need(data, 92)?;
    Ok(
        ApfsInodeValue {
            parent_id: u64_at(data, 0),
            private_id: u64_at(data, 8),
            create_time: u64_at(data, 16),
            modify_time: u64_at(data, 24),
            change_time: u64_at(data, 32),
            access_time: u64_at(data, 40),
            internal_flags: u64_at(data, 48),
            nchildren_or_nlink: u32_at(data, 56),
            bsd_flags: u32_at(data, 68),
            owner: u32_at(data, 72),
            group: u32_at(data, 76),
            mode: le_u16(data, 80),
            data_stream_size: dstream_size(data),
        },
    )
}

/// Decodes a directory record's value.
pub fn decode_dir_record_value(data: &[u8]) -> (r: RecoveryResult<ApfsDirRecordValue>)
    ensures
        r is Ok <==> data@.len() >= 18,
        r matches Ok(v) ==> v == (ApfsDirRecordValue {
            file_id: spec_le_u64(data@, 0) as u64,
            date_added: spec_le_u64(data@, 8) as u64,
            flags: spec_le_u16(data@, 16) as u16,
        }),
{
    need(data, 18)?;
    Ok(ApfsDirRecordValue { file_id: u64_at(data, 0), date_added: u64_at(data, 8), flags: le_u16(data, 16) })
}

/// Decodes a file extent record's value.
pub fn decode_file_extent_value(data: &[u8]) -> (r: RecoveryResult<ApfsFileExtentValue>)
    ensures
        r is Ok <==> data@.len() >= 24,
        r matches Ok(v) ==> v == (ApfsFileExtentValue {
            length_and_flags: spec_le_u64(data@, 0) as u64,
            physical_block: spec_le_u64(data@, 8) as u64,
            crypto_id: spec_le_u64(data@, 16) as u64,
        }),
{
    need(data, 24)?;
    Ok(
        ApfsFileExtentValue {
            length_and_flags: u64_at(data, 0),
            physical_block: u64_at(data, 8),
            crypto_id: u64_at(data, 16),
        },
    )
}

/// The byte length an extent's packed length-and-flags field records.
pub fn extent_length(length_and_flags: u64) -> (r: u64)
    ensures
        r == length_and_flags & J_FILE_EXTENT_LEN_MASK,
{
    length_and_flags & J_FILE_EXTENT_LEN_MASK
}

/// Whether an extent is a hole: it has no physical block.
pub fn extent_is_sparse(value: &ApfsFileExtentValue) -> (r: bool)
    ensures
        r == (value.physical_block == 0),
{
    value.physical_block == 0
}

/// Whether an inode's mode marks a regular file.
pub fn is_regular_file_mode(mode: u16) -> (r: bool)
    ensures
        r == (mode & S_IFMT == S_IFREG),
{
    mode & S_IFMT == S_IFREG
}

/// Whether an inode's mode marks a symbolic link.
pub fn is_symlink_mode(mode: u16) -> (r: bool)
    ensures
        r == (mode & S_IFMT == S_IFLNK),
{
    mode & S_IFMT == S_IFLNK
}

/// Where the first NUL of `s` lies, or its length if it has none.
pub open spec fn first_nul(s: Seq<u8>) -> int
    decreases s.len(),
{
    if s.len() == 0 {
        0
    } else if s[0] == 0 {
        0
    } else {
        1 + first_nul(s.drop_first())
    }
}

/// The first NUL lies at `k` when none comes before it.
pub proof fn lemma_first_nul(s: Seq<u8>, k: int)
    requires
        0 <= k <= s.len(),
        forall|j: int| 0 <= j < k ==> s[j] != 0,
        k == s.len() || s[k] == 0,
    ensures
        first_nul(s) == k,
    decreases s.len(),
{
    if s.len() > 0 && s[0] != 0 {
        assert forall|j: int| 0 <= j < k - 1 implies s.drop_first()[j] != 0 by {
            assert(s.drop_first()[j] == s[j + 1]);
        }
        if k < s.len() {
            assert(s.drop_first()[k - 1] == s[k]);
        }
        lemma_first_nul(s.drop_first(), k - 1);
    }
}

/// The text of a NUL-terminated name field: its bytes up to the first NUL,
/// decoded as UTF-8; `None` when that is empty or not UTF-8.
pub open spec fn nul_terminated_name(field: Seq<u8>) -> Option<Seq<char>> {
    let bytes = field.take(first_nul(field));
    if bytes.len() == 0 {
        None
    } else {
        utf8_decoding(bytes)
    }
}

/// Reads the name held in `data[start..start + len]`, up to its first NUL.
pub fn read_nul_terminated_name(data: &[u8], start: usize, len: usize) -> (r: RecoveryResult<String>)
    requires
        start + len <= data@.len(),
    ensures
        match nul_terminated_name(data@.subrange(start as int, start + len)) {
            Some(name) => r matches Ok(s) && s@ == name,
            None => r is Err,
        },
{
    let ghost field = data@.subrange(start as int, start + len);
    let n = data.len();
    let mut k: usize = 0;
    while k < len && data[start + k] != 0
        invariant
            n == data@.len(),
            start + len <= data@.len(),
            k <= len,
            field == data@.subrange(start as int, start + len),
            forall|j: int| 0 <= j < k ==> field[j] != 0,
        decreases len - k,
    {
        k = k + 1;
    }
    proof {
        lemma_first_nul(field, k as int);
    }
    if k == 0 {
        return Err(io_error("APFS name is empty"));
    }
    let bytes = crate::bytes::copy_range(data, start, start + k);
    assert(bytes@ == field.take(k as int));
    match utf8_string(bytes.as_slice()) {
        Some(s) => Ok(s),
        None => Err(io_error("APFS name is not valid UTF-8")),
    }
}

/// A directory record's key: the parent directory and the entry's name.
#[derive(Clone, Debug, PartialEq, Eq)]
pub struct ApfsDrecKey {
    pub parent_id: u64,
    pub name: String,
}

/// The name field of a plain directory-record key: a 16-bit length, then
/// that many bytes.
pub open spec fn drec_name_field(d: Seq<u8>) -> Option<Seq<u8>> {
    let len = spec_le_u16(d, 8);
    if d.len() < 10 || len == 0 || 10 + len > d.len() {
        None
    } else {
        Some(d.subrange(10, 10 + len))
    }
}

/// The name field of a hashed directory-record key: a 32-bit word whose low
/// ten bits are the length, then that many bytes.
pub open spec fn hashed_drec_name_field(d: Seq<u8>) -> Option<Seq<u8>> {
    let len = spec_le_u32(d, 8) % 1024;
    if d.len() < 12 || len == 0 || 12 + len > d.len() {
        None
    } else {
        Some(d.subrange(12, 12 + len))
    }
}

/// The name a directory-record key carries, given how its name field reads.
pub open spec fn drec_name(field: Option<Seq<u8>>) -> Option<Seq<char>> {
    match field {
        Some(f) => nul_terminated_name(f),
        None => None,
    }
}

/// Decodes a directory-record key whose name carries a plain 16-bit length.
pub fn decode_drec_key(data: &[u8]) -> (r: RecoveryResult<ApfsDrecKey>)
    ensures
        r is Ok <==> drec_name(drec_name_field(data@)) is Some,
        r matches Ok(k) ==> k.parent_id == jkey_of(data@).object_id && Some(k.name@) == drec_name(
            drec_name_field(data@),
        ),
{
    if data.len() < 10 {
        return Err(RecoveryError::LengthTooLarge { length: data.len() as u64 });
    }
    let key = decode_jkey(data)?;
    let len = le_u16(data, 8) as usize;
    if len == 0 || 10 + len > data.len() {
        return Err(RecoveryError::OutOfRange { offset: 10, length: len as u64, capacity: data.len() as u64 });
    }
    let name = read_nul_terminated_name(data, 10, len)?;
    Ok(ApfsDrecKey { parent_id: key.object_id, name })
}

/// Decodes a directory-record key whose name length shares a word with the
/// name's hash.
pub fn decode_hashed_drec_key(data: &[u8]) -> (r: RecoveryResult<ApfsDrecKey>)
    ensures
        r is Ok <==> drec_name(hashed_drec_name_field(data@)) is Some,
        r matches Ok(k) ==> k.parent_id == jkey_of(data@).object_id && Some(k.name@) == drec_name(
            hashed_drec_name_field(data@),
        ),
{
    if data.len() < 12 {
        return Err(RecoveryError::LengthTooLarge { length: data.len() as u64 });
    }
    let key = decode_jkey(data)?;
    let len = (le_u32(data, 8) % 1024) as usize;
    if len == 0 || 12 + len > data.len() {
        return Err(RecoveryError::OutOfRange { offset: 12, length: len as u64, capacity: data.len() as u64 });
    }
    let name = read_nul_terminated_name(data, 12, len)?;
    Ok(ApfsDrecKey { parent_id: key.object_id, name })
}

} // verus!
