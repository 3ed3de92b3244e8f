//! APFS B-tree node headers and their table of contents.

use vstd::prelude::*;
use crate::bytes::{le_u16, le_u32, spec_le_u16, spec_le_u32};
use crate::range::{io_error, RecoveryError, RecoveryResult};

verus! {

pub const NODE_HEADER_LEN: usize = 56;
pub const KV_OFFSET_LEN: usize = 4;
pub const FLAG_ROOT: u16 = 0x0001;
pub const FLAG_LEAF: u16 = 0x0002;
pub const FLAG_FIXED_KV_SIZE: u16 = 0x0004;

/// A B-tree node header.
#[derive(Clone, Copy, Debug, PartialEq, Eq)]
pub struct ApfsBtreeNode {
    pub flags: u16,
    pub level: u16,
    pub key_count: u32,
    pub table_space_offset: u16,
    pub table_space_length: u16,
    pub free_space_offset: u16,
    pub free_space_length: u16,
    pub key_free_list_offset: u16,
    pub key_free_list_length: u16,
    pub value_free_list_offset: u16,
    pub value_free_list_length: u16,
}

/// One entry of a node's table of contents: where its key and value lie.
#[derive(Clone, Copy, Debug, PartialEq, Eq)]
pub struct ApfsBtreeEntry {
    pub key_offset: u16,
    pub value_offset: u16,
}

impl ApfsBtreeNode {
    /// Whether the node is a leaf.
    pub fn is_leaf(self) -> (r: bool)
        ensures
            r == (self.flags & FLAG_LEAF != 0),
    {
        self.flags & FLAG_LEAF != 0
    }

    /// Whether the node is the root of its tree.
    pub fn is_root(self) -> (r: bool)
        ensures
            r == (self.flags & FLAG_ROOT != 0),
    {
        self.flags & FLAG_ROOT != 0
    }

    /// Whether the node's keys and values have fixed sizes.
    pub fn has_fixed_kv_size(self) -> (r: bool)
        ensures
            r == (self.flags & FLAG_FIXED_KV_SIZE != 0),
    {
        self.flags & FLAG_FIXED_KV_SIZE != 0
    }
}

/// The node header a block carries.
pub open spec fn node_of(d: Seq<u8>) -> ApfsBtreeNode {
    ApfsBtreeNode {
        flags: spec_le_u16(d, 32) as u16,
        level: spec_le_u16(d, 34) as u16,
        key_count: spec_le_u32(d, 36) as u32,
        table_space_offset: spec_le_u16(d, 40) as u16,
        table_space_length: spec_le_u16(d, 42) as u16,
        free_space_offset: spec_le_u16(d, 44) as u16,
        free_space_length: spec_le_u16(d, 46) as u16,
        key_free_list_offset: spec_le_u16(d, 48) as u16,
        key_free_list_length: spec_le_u16(d, 50) as u16,
        value_free_list_offset: spec_le_u16(d, 52) as u16,
        value_free_list_length: spec_le_u16(d, 54) as u16,
    }
}

/// Whether a block's node header is consistent with the block: the table
/// space and the table of contents lie inside it.
pub open spec fn node_valid(d: Seq<u8>) -> bool {
    let n = node_of(d);
    &&& d.len() >= NODE_HEADER_LEN
    &&& n.table_space_offset + n.table_space_length <= d.len()
    &&& NODE_HEADER_LEN + n.key_count * KV_OFFSET_LEN <= d.len()
}

/// Parses and bounds-checks a node header.
pub fn parse_btree_node(data: &[u8]) -> (r: RecoveryResult<ApfsBtreeNode>)
    ensures
        r is Ok <==> node_valid(data@),
        r matches Ok(n) ==> n == node_of(data@),
{
    if data.len() < NODE_HEADER_LEN {
        return Err(RecoveryError::LengthTooLarge { length: data.len() as u64 });
    }
    let node = ApfsBtreeNode {
        flags: le_u16(data, 32),
        level: le_u16(data, 34),
        key_count: le_u32(data, 36),
        table_space_offset: le_u16(data, 40),
        table_space_length: le_u16(data, 42),
        free_space_offset: le_u16(data, 44),
        free_space_length: le_u16(data, 46),
        key_free_list_offset: le_u16(data, 48),
        key_free_list_length: le_u16(data, 50),
        value_free_list_offset: le_u16(data, 52),
        value_free_list_length: le_u16(data, 54),
    };
    let table_start = node.table_space_offset as usize;
    let table_len = node.table_space_length as usize;
    if table_start + table_len > data.len() {
        return Err(
            RecoveryError::OutOfRange {
                offset: table_start as u64,
                length: table_len as u64,
                capacity: data.len() as u64,
            },
        );
    }
    if node.key_count as u64 > (usize::MAX as u64 - NODE_HEADER_LEN as u64) / (KV_OFFSET_LEN as u64) {
        return Err(RecoveryError::RangeOverflow);
    }
    let entries_len = node.key_count as usize * KV_OFFSET_LEN;
    if NODE_HEADER_LEN + entries_len > data.len() {
        return Err(
            RecoveryError::OutOfRange {
                offset: NODE_HEADER_LEN as u64,
                length: entries_len as u64,
                capacity: data.len() as u64,
            },
        );
    }
    Ok(node)
}

/// The `i`-th entry of the table of contents.
pub open spec fn toc_entry(d: Seq<u8>, i: int) -> ApfsBtreeEntry {
    ApfsBtreeEntry {
        key_offset: spec_le_u16(d, NODE_HEADER_LEN + i * KV_OFFSET_LEN) as u16,
        value_offset: spec_le_u16(d, NODE_HEADER_LEN + i * KV_OFFSET_LEN + 2) as u16,
    }
}

/// Whether a table-of-contents entry lies in the table space: its key starts
/// inside it, its value no later than its end, and not before the key.
pub open spec fn entry_in_table(e: ApfsBtreeEntry, n: ApfsBtreeNode) -> bool {
    let start = n.table_space_offset as int;
    let end = n.table_space_offset + n.table_space_length;
    &&& start <= e.key_offset < end
    &&& start <= e.value_offset <= end
    &&& e.key_offset <= e.value_offset
}

/// Reads a node's table of contents, refusing any entry outside the table
/// space.
pub fn btree_entries(data: &[u8]) -> (r: RecoveryResult<Vec<ApfsBtreeEntry>>)
    ensures
        r matches Ok(entries) ==> {
            &&& node_valid(data@)
            &&& entries@.len() == node_of(data@).key_count
            &&& forall|i: int| 0 <= i < entries@.len() ==> #[trigger] entries@[i] == toc_entry(data@, i)
                && entry_in_table(entries@[i], node_of(data@))
        },
        r is Ok <==> node_valid(data@) && forall|i: int|
            0 <= i < node_of(data@).key_count ==> entry_in_table(#[trigger] toc_entry(data@, i), node_of(data@)),
{
    let node = parse_btree_node(data)?;
    let count = node.key_count as usize;
    let table_start = node.table_space_offset as usize;
    let table_end = table_start + node.table_space_length as usize;
    let mut entries: Vec<ApfsBtreeEntry> = Vec::new();
    let mut index: usize = 0;
    while index < count
        invariant
            node == node_of(data@),
            node_valid(data@),
            count == node.key_count,
            NODE_HEADER_LEN + count * KV_OFFSET_LEN <= data.len(),
            table_start == node.table_space_offset,
            table_end == node.table_space_offset + node.table_space_length,
            index <= count,
            entries@.len() == index,
            forall|i: int| 0 <= i < index ==> #[trigger] entries@[i] == toc_entry(data@, i)
                && entry_in_table(entries@[i], node),
        decreases count - index,
    {
        let pos = NODE_HEADER_LEN + index * KV_OFFSET_LEN;
        let key_offset = le_u16(data, pos);
        let value_offset = le_u16(data, pos + 2);
        let e = ApfsBtreeEntry { key_offset, value_offset };
        if (key_offset as usize) < table_start || key_offset as usize >= table_end {
            assert(!entry_in_table(toc_entry(data@, index as int), node));
            return Err(io_error("APFS B-tree key offset is outside table space"));
        }
        if (value_offset as usize) < table_start || value_offset as usize > table_end {
            assert(!entry_in_table(toc_entry(data@, index as int), node));
            return Err(io_error("APFS B-tree value offset is outside table space"));
        }
        if value_offset < key_offset {
            assert(!entry_in_table(toc_entry(data@, index as int), node));
            return Err(io_error("APFS B-tree value precedes key"));
        }
        entries.push(e);
        index = index + 1;
    }
    assert(forall|i: int| 0 <= i < node_of(data@).key_count ==> entry_in_table(#[trigger] toc_entry(data@, i), node_of(data@))) by {
        assert forall|i: int| 0 <= i < node_of(data@).key_count implies entry_in_table(#[trigger] toc_entry(data@, i), node_of(data@)) by {
            assert(entries@[i] == toc_entry(data@, i));
        }
    }
    Ok(entries)
}

/// The bytes of an entry's key: from its key offset up to its value offset.
pub fn btree_key(data: &[u8], entry: ApfsBtreeEntry, next: Option<ApfsBtreeEntry>) -> (r: RecoveryResult<Vec<u8>>)
    ensures
        r is Ok <==> entry.key_offset <= entry.value_offset <= data@.len(),
        r matches Ok(k) ==> k@ == data@.subrange(entry.key_offset as int, entry.value_offset as int),
{
    let start = entry.key_offset as usize;
    let end = entry.value_offset as usize;
    if end < start || end > data.len() {
        return Err(io_error("APFS B-tree key range is invalid"));
    }
    Ok(crate::bytes::copy_range(data, start, end))
}

/// Bytes at the end of a root node that hold the tree's footer rather than
/// values.
pub const BTREE_FOOTER_LEN: usize = 40;

/// A key and value of a node whose keys and values have fixed sizes.
#[derive(Clone, Debug, PartialEq, Eq)]
pub struct ApfsFixedBtreeEntry {
    pub key: Vec<u8>,
    pub value: Vec<u8>,
}

/// Where a node's key area starts: right after its table of contents.
pub open spec fn key_area_start(n: ApfsBtreeNode) -> int {
    NODE_HEADER_LEN + n.table_space_offset + n.table_space_length
}

/// Where a node's value area ends: the end of the block, short of the
/// footer in a root node.
pub open spec fn value_area_end(d: Seq<u8>, n: ApfsBtreeNode) -> int {
    if n.flags & FLAG_ROOT != 0 {
        d.len() - BTREE_FOOTER_LEN
    } else {
        d.len() as int
    }
}

/// The `i`-th key of a fixed-size node.
pub open spec fn fixed_key(d: Seq<u8>, i: int, key_size: int) -> Seq<u8> {
    let k = spec_le_u16(d, NODE_HEADER_LEN + i * KV_OFFSET_LEN);
    let at = key_area_start(node_of(d)) + k;
    d.subrange(at, at + key_size)
}

/// The `i`-th value of a fixed-size node: values are addressed back from the
/// end of the value area.
pub open spec fn fixed_value(d: Seq<u8>, i: int, value_size: int) -> Seq<u8> {
    let v = spec_le_u16(d, NODE_HEADER_LEN + i * KV_OFFSET_LEN + 2);
    let end = value_area_end(d, node_of(d)) - v;
    d.subrange(end - value_size, end)
}

/// Whether the `i`-th key and value of a fixed-size node lie inside the
/// block.
pub open spec fn fixed_entry_in_block(d: Seq<u8>, i: int, key_size: int, value_size: int) -> bool {
    let k = spec_le_u16(d, NODE_HEADER_LEN + i * KV_OFFSET_LEN);
    let v = spec_le_u16(d, NODE_HEADER_LEN + i * KV_OFFSET_LEN + 2);
    &&& key_area_start(node_of(d)) + k + key_size <= d.len()
    &&& v + value_size <= value_area_end(d, node_of(d))
}

/// Whether a fixed-size node's header is sound, a root node holds its
/// footer, and every key and value lies inside the block.
pub open spec fn fixed_entries_ok(d: Seq<u8>, key_size: int, value_size: int) -> bool {
    &&& node_valid(d)
    &&& node_of(d).flags & FLAG_ROOT != 0 ==> d.len() >= BTREE_FOOTER_LEN
    &&& forall|i: int| 0 <= i < node_of(d).key_count ==> #[trigger] fixed_entry_in_block(d, i, key_size, value_size)
}

/// Reads the keys and values of a node whose keys and values have fixed
/// sizes, refusing any that fall outside the block.
pub fn btree_fixed_entries(data: &[u8], key_size: usize, value_size: usize) -> (r: RecoveryResult<Vec<ApfsFixedBtreeEntry>>)
    ensures
        r matches Ok(entries) ==> {
            &&& node_valid(data@)
            &&& entries@.len() == node_of(data@).key_count
            &&& forall|i: int|
                0 <= i < entries@.len() ==> (#[trigger] entries@[i]).key@ == fixed_key(data@, i, key_size as int)
                    && entries@[i].value@ == fixed_value(data@, i, value_size as int)
                    && entries@[i].key@.len() == key_size && entries@[i].value@.len() == value_size
        },
        r is Ok <==> fixed_entries_ok(data@, key_size as int, value_size as int),
{
    let node = parse_btree_node(data)?;
    let count = node.key_count as usize;
    let kv_start = NODE_HEADER_LEN + node.table_space_offset as usize + node.table_space_length as usize;
    let root = node.is_root();
    if root && data.len() < BTREE_FOOTER_LEN {
        return Err(io_error("APFS B-tree root is shorter than its footer"));
    }
    let value_end = if root {
        data.len() - BTREE_FOOTER_LEN
    } else {
        data.len()
    };
    let mut entries: Vec<ApfsFixedBtreeEntry> = Vec::new();
    let mut index: usize = 0;
    while index < count
        invariant
            node == node_of(data@),
            node_valid(data@),
            count == node.key_count,
            NODE_HEADER_LEN + count * KV_OFFSET_LEN <= data.len(),
            kv_start == key_area_start(node),
            value_end == value_area_end(data@, node),
            value_end <= data@.len(),
            index <= count,
            entries@.len() == index,
            forall|i: int|
                0 <= i < index ==> (#[trigger] entries@[i]).key@ == fixed_key(data@, i, key_size as int)
                    && entries@[i].value@ == fixed_value(data@, i, value_size as int)
                    && entries@[i].key@.len() == key_size && entries@[i].value@.len() == value_size,
            node.flags & FLAG_ROOT != 0 ==> data@.len() >= BTREE_FOOTER_LEN,
            forall|i: int| 0 <= i < index ==> #[trigger] fixed_entry_in_block(data@, i, key_size as int, value_size as int),
        decreases count - index,
    {
        let pos = NODE_HEADER_LEN + index * KV_OFFSET_LEN;
        let k = le_u16(data, pos) as usize;
        let v = le_u16(data, pos + 2) as usize;
        if k > data.len() || kv_start > data.len() - k || key_size > data.len() - (kv_start + k) {
            assert(!fixed_entry_in_block(data@, index as int, key_size as int, value_size as int));
            return Err(io_error("APFS B-tree key lies outside the node"));
        }
        let key_at = kv_start + k;
        if v > value_end || value_size > value_end - v {
            assert(!fixed_entry_in_block(data@, index as int, key_size as int, value_size as int));
            return Err(io_error("APFS B-tree value lies outside the node"));
        }
        let value_at = value_end - v - value_size;
        let key = crate::bytes::copy_range(data, key_at, key_at + key_size);
        let value = crate::bytes::copy_range(data, value_at, value_at + value_size);
        let e = ApfsFixedBtreeEntry { key, value };
        let ghost old_entries = entries@;
        entries.push(e);
        assert(fixed_entry_in_block(data@, index as int, key_size as int, value_size as int));
        proof {
            assert forall|i: int|
                0 <= i < index + 1 implies (#[trigger] entries@[i]).key@ == fixed_key(data@, i, key_size as int)
                    && entries@[i].value@ == fixed_value(data@, i, value_size as int)
                    && entries@[i].key@.len() == key_size && entries@[i].value@.len() == value_size by {
                if i < index {
                    assert(entries@[i] == old_entries[i]);
                }
            }
        }
        index = index + 1;
    }
    Ok(entries)
}

/// Bytes per table-of-contents entry of a node whose keys and values vary in
/// size: key offset, key length, value offset, value length.
pub const KV_VARIABLE_LEN: usize = 8;

/// A key and value of a node whose keys and values vary in size.
#[derive(Clone, Debug, PartialEq, Eq)]
pub struct ApfsVariableBtreeEntry {
    pub key: Vec<u8>,
    pub value: Vec<u8>,
}

/// The `i`-th table-of-contents field `f` (0 to 3) of a variable-size node.
pub open spec fn variable_field(d: Seq<u8>, i: int, f: int) -> int {
    spec_le_u16(d, NODE_HEADER_LEN + i * KV_VARIABLE_LEN + 2 * f)
}

/// The `i`-th key of a variable-size node.
pub open spec fn variable_key(d: Seq<u8>, i: int) -> Seq<u8> {
    let at = key_area_start(node_of(d)) + variable_field(d, i, 0);
    d.subrange(at, at + variable_field(d, i, 1))
}

/// The `i`-th value of a variable-size node, addressed back from the end of
/// the value area.
pub open spec fn variable_value(d: Seq<u8>, i: int) -> Seq<u8> {
    let end = value_area_end(d, node_of(d)) - variable_field(d, i, 2);
    d.subrange(end - variable_field(d, i, 3), end)
}

/// Whether the `i`-th key and value of a variable-size node lie inside the
/// block.
pub open spec fn variable_entry_in_block(d: Seq<u8>, i: int) -> bool {
    let at = key_area_start(node_of(d)) + variable_field(d, i, 0);
    let end = value_area_end(d, node_of(d)) - variable_field(d, i, 2);
    &&& at + variable_field(d, i, 1) <= d.len()
    &&& end - variable_field(d, i, 3) >= 0
}

/// Whether a block holds a well-formed variable-size node: a valid header,
/// room for its table, a root's footer, and every entry inside the block.
pub open spec fn variable_node_valid(d: Seq<u8>) -> bool {
    let n = node_of(d);
    &&& node_valid(d)
    &&& NODE_HEADER_LEN + n.key_count * KV_VARIABLE_LEN <= d.len()
    &&& (n.flags & FLAG_ROOT != 0 ==> d.len() >= BTREE_FOOTER_LEN)
    &&& forall|i: int| 0 <= i < n.key_count ==> #[trigger] variable_entry_in_block(d, i)
}

/// Reads the keys and values of a node whose keys and values vary in size,
/// refusing any that fall outside the block.
pub fn btree_variable_entries(data: &[u8]) -> (r: RecoveryResult<Vec<ApfsVariableBtreeEntry>>)
    ensures
        r is Ok <==> variable_node_valid(data@),
        r matches Ok(entries) ==> {
            &&& entries@.len() == node_of(data@).key_count
            &&& forall|i: int|
                0 <= i < entries@.len() ==> (#[trigger] entries@[i]).key@ == variable_key(data@, i)
                    && entries@[i].value@ == variable_value(data@, i)
        },
{
    let node = parse_btree_node(data)?;
    let count = node.key_count as usize;
    if count > (data.len() - NODE_HEADER_LEN) / KV_VARIABLE_LEN {
        return Err(io_error("APFS B-tree table of contents exceeds the node"));
    }
    let kv_start = NODE_HEADER_LEN + node.table_space_offset as usize + node.table_space_length as usize;
    let root = node.is_root();
    if root && data.len() < BTREE_FOOTER_LEN {
        return Err(io_error("APFS B-tree root is shorter than its footer"));
    }
    let value_end = if root {
        data.len() - BTREE_FOOTER_LEN
    } else {
        data.len()
    };
    let mut entries: Vec<ApfsVariableBtreeEntry> = Vec::new();
    let mut index: usize = 0;
    while index < count
        invariant
            node == node_of(data@),
            node_valid(data@),
            count == node.key_count,
            NODE_HEADER_LEN + count * KV_VARIABLE_LEN <= data.len(),
            kv_start == key_area_start(node),
            value_end == value_area_end(data@, node),
            value_end <= data@.len(),
            root == (node.flags & FLAG_ROOT != 0),
            root ==> data@.len() >= BTREE_FOOTER_LEN,
            index <= count,
            entries@.len() == index,
            forall|i: int| 0 <= i < index ==> #[trigger] variable_entry_in_block(data@, i),
            forall|i: int|
                0 <= i < index ==> (#[trigger] entries@[i]).key@ == variable_key(data@, i)
                    && entries@[i].value@ == variable_value(data@, i),
        decreases count - index,
    {
        let pos = NODE_HEADER_LEN + index * KV_VARIABLE_LEN;
        let k = le_u16(data, pos) as usize;
        let klen = le_u16(data, pos + 2) as usize;
        let v = le_u16(data, pos + 4) as usize;
        let vlen = le_u16(data, pos + 6) as usize;
        assert(k == variable_field(data@, index as int, 0));
        assert(klen == variable_field(data@, index as int, 1));
        assert(v == variable_field(data@, index as int, 2));
        assert(vlen == variable_field(data@, index as int, 3));
        if k > data.len() || kv_start > data.len() - k || klen > data.len() - (kv_start + k) {
            assert(!variable_entry_in_block(data@, index as int));
            return Err(io_error("APFS B-tree key lies outside the node"));
        }
        let key_at = kv_start + k;
        if v > value_end || vlen > value_end - v {
            assert(!variable_entry_in_block(data@, index as int));
            return Err(io_error("APFS B-tree value lies outside the node"));
        }
        let value_at = value_end - v - vlen;
        let key = crate::bytes::copy_range(data, key_at, key_at + klen);
        let value = crate::bytes::copy_range(data, value_at, value_at + vlen);
        let ghost old_entries = entries@;
        entries.push(ApfsVariableBtreeEntry { key, value });
        proof {
            assert forall|i: int|
                0 <= i < index + 1 implies (#[trigger] entries@[i]).key@ == variable_key(data@, i)
                    && entries@[i].value@ == variable_value(data@, i) by {
                if i < index {
                    assert(entries@[i] == old_entries[i]);
                }
            }
        }
        index = index + 1;
    }
    Ok(entries)
}

} // verus!
