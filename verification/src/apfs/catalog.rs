//! Walking a catalog B-tree down to its leaf records.

use vstd::prelude::*;
use crate::apfs::btree::{
    btree_variable_entries, node_of, variable_key, variable_node_valid, variable_value,
    ApfsVariableBtreeEntry, FLAG_LEAF,
};
use crate::apfs::checksum::{checksum_valid, verify_fletcher64};
use crate::apfs::omap::ApfsObjectMapKey;
use crate::apfs::omap_lookup::object_block;
use crate::apfs::volume::{lookup_volume_object, omap_lookup_ok, omap_lookup_value, value_deleted};
use crate::apfs::{object_readable, read_object, u64_at, ApfsContainer, ApfsVolume};
use crate::bytes::spec_le_u64;
use crate::device::{readable, BlockDevice};
use crate::range::{io_error, ByteRange, RecoveryError, RecoveryResult};

verus! {

/// How deep a catalog walk may descend before the tree is taken as corrupt.
pub const MAX_DEPTH: usize = 64;

/// An owned raw catalog record. Catalog keys depend on the record type, so
/// decoding is left to the filesystem-record layer.
#[derive(Clone, Debug, PartialEq, Eq)]
pub struct ApfsCatalogRecord {
    pub key: Vec<u8>,
    pub value: Vec<u8>,
}

/// The child object id a branch entry's value holds.
pub fn child_oid(entry: &ApfsVariableBtreeEntry) -> (r: RecoveryResult<u64>)
    ensures
        r is Ok <==> entry.value@.len() == 8,
        r matches Ok(oid) ==> oid == spec_le_u64(entry.value@, 0),
{
    if entry.value.len() != 8 {
        return Err(io_error("APFS catalog branch value must be an object ID"));
    }
    Ok(u64_at(entry.value.as_slice(), 0))
}

/// Whether `rec` is entry `i` of the checksummed, well-formed leaf node held
/// in block `oid` of the container.
pub open spec fn leaf_record_at(
    contents: Seq<u8>,
    start: int,
    container: ApfsContainer,
    oid: u64,
    i: int,
    rec: ApfsCatalogRecord,
) -> bool {
    let b = object_block(contents, start, container, oid);
    &&& oid < container.block_count
    &&& checksum_valid(b)
    &&& variable_node_valid(b)
    &&& node_of(b).flags & FLAG_LEAF != 0
    &&& 0 <= i < node_of(b).key_count
    &&& rec.key@ == variable_key(b, i)
    &&& rec.value@ == variable_value(b, i)
}

/// Whether `rec` is an entry of some checksummed leaf node of the container.
pub open spec fn is_leaf_record(contents: Seq<u8>, start: int, container: ApfsContainer, rec: ApfsCatalogRecord) -> bool {
    exists|oid: u64, i: int| #[trigger] leaf_record_at(contents, start, container, oid, i, rec)
}

/// Whether every record is a leaf entry of some block of the container.
pub open spec fn all_leaf_records(
    contents: Seq<u8>,
    start: int,
    container: ApfsContainer,
    records: Seq<ApfsCatalogRecord>,
) -> bool {
    forall|k: int| 0 <= k < records.len() ==> #[trigger] is_leaf_record(contents, start, container, records[k])
}

/// Whether block `oid` is a readable, checksummed, well-formed node with at
/// least one entry.
pub open spec fn node_readable(contents: Seq<u8>, range: ByteRange, container: ApfsContainer, oid: u64) -> bool {
    let b = object_block(contents, range.offset as int, container, oid);
    &&& object_readable(contents, range, container, oid)
    &&& checksum_valid(b)
    &&& variable_node_valid(b)
    &&& node_of(b).key_count > 0
}

/// Whether a walk over physical node addresses from node `oid`, at `depth`
/// with `visited` nodes above it, reads through: each node is within the
/// depth limit, a block of the container not met before, and readable, and
/// each branch entry holds an object id whose subtree reads through.
pub open spec fn physical_tree_ok(
    contents: Seq<u8>,
    range: ByteRange,
    container: ApfsContainer,
    oid: u64,
    depth: int,
    visited: Seq<u64>,
) -> bool
    decreases MAX_DEPTH - depth,
{
    let b = object_block(contents, range.offset as int, container, oid);
    &&& 0 <= depth < MAX_DEPTH
    &&& oid < container.block_count
    &&& !visited.contains(oid)
    &&& node_readable(contents, range, container, oid)
    &&& node_of(b).flags & FLAG_LEAF != 0 || forall|i: int|
        0 <= i < node_of(b).key_count ==> #[trigger] variable_value(b, i).len() == 8 && physical_tree_ok(
            contents,
            range,
            container,
            spec_le_u64(variable_value(b, i), 0) as u64,
            depth + 1,
            visited.push(oid),
        )
}

/// The block a volume's object map maps virtual node `oid` to at `xid`.
pub open spec fn node_block(contents: Seq<u8>, range: ByteRange, container: ApfsContainer, volume: ApfsVolume, oid: u64, xid: u64) -> u64 {
    omap_lookup_value(contents, range, container, volume.omap_oid, ApfsObjectMapKey { oid, xid }).physical_address
}

/// Whether a walk over virtual node ids from node `oid` reads through: each
/// node resolves through the volume's object map to a live mapping onto a
/// readable node of the container, within the depth limit and not met
/// before, and each branch entry holds an object id whose subtree reads
/// through.
pub open spec fn virtual_tree_ok(
    contents: Seq<u8>,
    range: ByteRange,
    container: ApfsContainer,
    volume: ApfsVolume,
    oid: u64,
    xid: u64,
    depth: int,
    visited: Seq<u64>,
) -> bool
    decreases MAX_DEPTH - depth,
{
    let key = ApfsObjectMapKey { oid, xid };
    let pa = node_block(contents, range, container, volume, oid, xid);
    let b = object_block(contents, range.offset as int, container, pa);
    &&& 0 <= depth < MAX_DEPTH
    &&& !visited.contains(oid)
    &&& volume.omap_oid != 0
    &&& omap_lookup_ok(contents, range, container, volume.omap_oid, key)
    &&& !value_deleted(omap_lookup_value(contents, range, container, volume.omap_oid, key))
    &&& pa < container.block_count
    &&& node_readable(contents, range, container, pa)
    &&& node_of(b).flags & FLAG_LEAF != 0 || forall|i: int|
        0 <= i < node_of(b).key_count ==> #[trigger] variable_value(b, i).len() == 8 && virtual_tree_ok(
            contents,
            range,
            container,
            volume,
            spec_le_u64(variable_value(b, i), 0) as u64,
            xid,
            depth + 1,
            visited.push(oid),
        )
}

/// The key and value bytes of each record, in order.
pub open spec fn record_views(records: Seq<ApfsCatalogRecord>) -> Seq<(Seq<u8>, Seq<u8>)> {
    records.map_values(|r: ApfsCatalogRecord| (r.key@, r.value@))
}

/// The records of the leaf node in block `b`, in order.
pub open spec fn node_records(b: Seq<u8>) -> Seq<(Seq<u8>, Seq<u8>)> {
    Seq::new(node_of(b).key_count as nat, |i: int| (variable_key(b, i), variable_value(b, i)))
}

/// The child a branch node in block `b` names in entry `i`.
pub open spec fn branch_child(b: Seq<u8>, i: int) -> u64 {
    spec_le_u64(variable_value(b, i), 0) as u64
}

/// The leaf records, in tree order, of the subtree at physical node `oid`
/// reached at `depth` below the nodes `visited`.
pub open spec fn physical_leaves(
    contents: Seq<u8>,
    range: ByteRange,
    container: ApfsContainer,
    oid: u64,
    depth: int,
    visited: Seq<u64>,
) -> Seq<(Seq<u8>, Seq<u8>)>
    decreases MAX_DEPTH - depth, 1int, 0int,
{
    let b = object_block(contents, range.offset as int, container, oid);
    if depth < 0 || depth >= MAX_DEPTH {
        Seq::empty()
    } else if node_of(b).flags & FLAG_LEAF != 0 {
        node_records(b)
    } else {
        physical_children(contents, range, container, b, depth, visited.push(oid), node_of(b).key_count as int)
    }
}

/// The leaf records of the subtrees named by the first `n` entries of the
/// branch node in block `b`, in order.
pub open spec fn physical_children(
    contents: Seq<u8>,
    range: ByteRange,
    container: ApfsContainer,
    b: Seq<u8>,
    depth: int,
    visited: Seq<u64>,
    n: int,
) -> Seq<(Seq<u8>, Seq<u8>)>
    decreases MAX_DEPTH - depth, 0int, n,
{
    if n <= 0 || depth < 0 || depth >= MAX_DEPTH {
        Seq::empty()
    } else {
        physical_children(contents, range, container, b, depth, visited, n - 1) + physical_leaves(
            contents,
            range,
            container,
            branch_child(b, n - 1),
            depth + 1,
            visited,
        )
    }
}

/// The leaf records, in tree order, of the subtree at virtual node `oid`
/// reached at `depth` below the nodes `visited`, each node found through
/// the volume's object map at `xid`.
pub open spec fn virtual_leaves(
    contents: Seq<u8>,
    range: ByteRange,
    container: ApfsContainer,
    volume: ApfsVolume,
    oid: u64,
    xid: u64,
    depth: int,
    visited: Seq<u64>,
) -> Seq<(Seq<u8>, Seq<u8>)>
    decreases MAX_DEPTH - depth, 1int, 0int,
{
    let b = object_block(contents, range.offset as int, container, node_block(contents, range, container, volume, oid, xid));
    if depth < 0 || depth >= MAX_DEPTH {
        Seq::empty()
    } else if node_of(b).flags & FLAG_LEAF != 0 {
        node_records(b)
    } else {
        virtual_children(contents, range, container, volume, b, xid, depth, visited.push(oid), node_of(b).key_count as int)
    }
}

/// The leaf records of the virtual subtrees named by the first `n` entries
/// of the branch node in block `b`, in order.
pub open spec fn virtual_children(
    contents: Seq<u8>,
    range: ByteRange,
    container: ApfsContainer,
    volume: ApfsVolume,
    b: Seq<u8>,
    xid: u64,
    depth: int,
    visited: Seq<u64>,
    n: int,
) -> Seq<(Seq<u8>, Seq<u8>)>
    decreases MAX_DEPTH - depth, 0int, n,
{
    if n <= 0 || depth < 0 || depth >= MAX_DEPTH {
        Seq::empty()
    } else {
        virtual_children(contents, range, container, volume, b, xid, depth, visited, n - 1) + virtual_leaves(
            contents,
            range,
            container,
            volume,
            branch_child(b, n - 1),
            xid,
            depth + 1,
            visited,
        )
    }
}

/// Reads block `oid`, refusing one whose checksum does not match.
fn read_checked_node<D: BlockDevice>(
    device: &D,
    range: ByteRange,
    container: &ApfsContainer,
    oid: u64,
) -> (r: RecoveryResult<(Vec<u8>, Vec<ApfsVariableBtreeEntry>)>)
    ensures
        r matches Ok((block, entries)) ==> {
            &&& oid < container.block_count
            &&& block@ == object_block(device.contents(), range.offset as int, *container, oid)
            &&& checksum_valid(block@)
            &&& variable_node_valid(block@)
            &&& entries@.len() == node_of(block@).key_count
            &&& entries@.len() > 0
            &&& forall|i: int|
                0 <= i < entries@.len() ==> (#[trigger] entries@[i]).key@ == variable_key(block@, i)
                    && entries@[i].value@ == variable_value(block@, i)
        },
        readable(device) && node_readable(device.contents(), range, *container, oid) ==> r is Ok,
{
    let block = read_object(device, range, container, oid)?;
    verify_fletcher64(block.as_slice())?;
    let entries = btree_variable_entries(block.as_slice())?;
    if entries.len() == 0 {
        return Err(io_error("APFS catalog node has no entries"));
    }
    Ok((block, entries))
}

/// Appends every entry of a checked leaf node to `out`.
fn append_leaf(
    block: &Vec<u8>,
    entries: Vec<ApfsVariableBtreeEntry>,
    out: &mut Vec<ApfsCatalogRecord>,
    Ghost(contents): Ghost<Seq<u8>>,
    Ghost(start): Ghost<int>,
    container: &ApfsContainer,
    Ghost(oid): Ghost<u64>,
)
    requires
        oid < container.block_count,
        block@ == object_block(contents, start, *container, oid),
        checksum_valid(block@),
        variable_node_valid(block@),
        node_of(block@).flags & FLAG_LEAF != 0,
        entries@.len() == node_of(block@).key_count,
        forall|i: int|
            0 <= i < entries@.len() ==> (#[trigger] entries@[i]).key@ == variable_key(block@, i)
                && entries@[i].value@ == variable_value(block@, i),
        all_leaf_records(contents, start, *container, old(out)@),
    ensures
        all_leaf_records(contents, start, *container, final(out)@),
        final(out)@.len() == old(out)@.len() + entries@.len(),
        record_views(final(out)@) == record_views(old(out)@) + node_records(block@),
{
    let mut i: usize = 0;
    while i < entries.len()
        invariant
            i <= entries@.len(),
            oid < container.block_count,
            block@ == object_block(contents, start, *container, oid),
            checksum_valid(block@),
            variable_node_valid(block@),
            node_of(block@).flags & FLAG_LEAF != 0,
            entries@.len() == node_of(block@).key_count,
            forall|j: int|
                0 <= j < entries@.len() ==> (#[trigger] entries@[j]).key@ == variable_key(block@, j)
                    && entries@[j].value@ == variable_value(block@, j),
            all_leaf_records(contents, start, *container, out@),
            out@.len() == old(out)@.len() + i,
            record_views(out@) == record_views(old(out)@) + node_records(block@).take(i as int),
        decreases entries@.len() - i,
    {
        let rec = ApfsCatalogRecord { key: entries[i].key.clone(), value: entries[i].value.clone() };
        assert(leaf_record_at(contents, start, *container, oid, i as int, rec));
        let ghost before = out@;
        out.push(rec);
        assert(record_views(out@) =~= record_views(before).push((rec.key@, rec.value@)));
        assert(node_records(block@).take(i + 1) =~= node_records(block@).take(i as int).push((rec.key@, rec.value@)));
        assert forall|k: int| 0 <= k < out@.len() implies #[trigger] is_leaf_record(contents, start, *container, out@[k]) by {
            if k < before.len() {
                assert(out@[k] == before[k]);
            } else {
                assert(leaf_record_at(contents, start, *container, oid, i as int, out@[k]));
            }
        }
        i = i + 1;
    }
    assert(node_records(block@).take(entries@.len() as int) =~= node_records(block@));
}

/// One step of a walk over physical node addresses.
fn walk_physical<D: BlockDevice>(
    device: &D,
    range: ByteRange,
    container: &ApfsContainer,
    node_oid: u64,
    depth: usize,
    visited: &mut Vec<u64>,
    out: &mut Vec<ApfsCatalogRecord>,
) -> (r: RecoveryResult<()>)
    requires
        depth <= MAX_DEPTH,
        all_leaf_records(device.contents(), range.offset as int, *container, old(out)@),
    ensures
        all_leaf_records(device.contents(), range.offset as int, *container, final(out)@),
        r is Ok ==> final(visited)@ == old(visited)@,
        depth >= MAX_DEPTH || node_oid >= container.block_count || old(visited)@.contains(node_oid)
            ==> r is Err,
        readable(device) && physical_tree_ok(device.contents(), range, *container, node_oid, depth as int, old(visited)@)
            ==> r is Ok && record_views(final(out)@) == record_views(old(out)@) + physical_leaves(
            device.contents(),
            range,
            *container,
            node_oid,
            depth as int,
            old(visited)@,
        ),
    decreases MAX_DEPTH - depth,
{
    let ghost owed = readable(device) && physical_tree_ok(device.contents(), range, *container, node_oid, depth as int, old(visited)@);
    let ghost start_out = out@;
    if depth >= MAX_DEPTH {
        return Err(io_error("APFS catalog tree exceeds depth limit"));
    }
    if node_oid >= container.block_count {
        return Err(RecoveryError::OutOfRange { offset: node_oid, length: 1, capacity: container.block_count });
    }
    if crate::apfs::volume::contains_oid(visited, node_oid) {
        return Err(io_error("APFS catalog tree contains a cycle"));
    }
    visited.push(node_oid);
    let (block, entries) = read_checked_node(device, range, container, node_oid)?;
    let node = crate::apfs::btree::parse_btree_node(block.as_slice())?;
    if node.is_leaf() {
        append_leaf(&block, entries, out, Ghost(device.contents()), Ghost(range.offset as int), container, Ghost(node_oid));
    } else {
        let mut i: usize = 0;
        while i < entries.len()
            invariant
                depth < MAX_DEPTH,
                i <= entries@.len(),
                all_leaf_records(device.contents(), range.offset as int, *container, out@),
                visited@ == old(visited)@.push(node_oid),
                entries@.len() == node_of(block@).key_count,
                forall|j: int| 0 <= j < entries@.len() ==> (#[trigger] entries@[j]).value@ == variable_value(block@, j),
                block@ == object_block(device.contents(), range.offset as int, *container, node_oid),
                node.flags & FLAG_LEAF == 0,
                node == node_of(block@),
                owed == (readable(device) && physical_tree_ok(
                    device.contents(),
                    range,
                    *container,
                    node_oid,
                    depth as int,
                    old(visited)@,
                )),
                owed ==> record_views(out@) == record_views(start_out) + physical_children(
                    device.contents(),
                    range,
                    *container,
                    block@,
                    depth as int,
                    old(visited)@.push(node_oid),
                    i as int,
                ),
            decreases entries@.len() - i,
        {
            proof {
                if owed {
                    assert(variable_value(block@, i as int).len() == 8);
                }
            }
            let child = child_oid(&entries[i])?;
            let ghost before = out@;
            walk_physical(device, range, container, child, depth + 1, visited, out)?;
            proof {
                if owed {
                    assert(child == branch_child(block@, i as int));
                    assert(record_views(out@) =~= record_views(start_out) + physical_children(
                        device.contents(),
                        range,
                        *container,
                        block@,
                        depth as int,
                        old(visited)@.push(node_oid),
                        i + 1,
                    ));
                }
            }
            i = i + 1;
        }
    }
    visited.pop();
    Ok(())
}

/// Traverses every reachable catalog B-tree node when node references are
/// physical block numbers, collecting the records of its leaves in tree
/// order. Every node's checksum is verified; a cycle, a tree deeper than
/// the depth limit, an empty node or a branch value that is not an object id
/// fails the walk.
pub fn read_catalog_records<D: BlockDevice>(
    device: &D,
    range: ByteRange,
    container: &ApfsContainer,
    root_oid: u64,
) -> (r: RecoveryResult<Vec<ApfsCatalogRecord>>)
    ensures
        root_oid >= container.block_count ==> r is Err,
        r matches Ok(records) ==> all_leaf_records(device.contents(), range.offset as int, *container, records@),
        readable(device) && physical_tree_ok(device.contents(), range, *container, root_oid, 0, Seq::empty()) ==> (r matches Ok(
            records,
        ) && record_views(records@) == physical_leaves(device.contents(), range, *container, root_oid, 0, Seq::empty())),
{
    let mut visited: Vec<u64> = Vec::new();
    let mut records: Vec<ApfsCatalogRecord> = Vec::new();
    assert(visited@ == Seq::<u64>::empty());
    assert(record_views(records@) =~= Seq::<(Seq<u8>, Seq<u8>)>::empty());
    walk_physical(device, range, container, root_oid, 0, &mut visited, &mut records)?;
    assert(Seq::<(Seq<u8>, Seq<u8>)>::empty() + physical_leaves(device.contents(), range, *container, root_oid, 0, Seq::empty()) =~= physical_leaves(device.contents(), range, *container, root_oid, 0, Seq::empty()));
    Ok(records)
}

/// Resolves a virtual catalog node id through the volume's object map.
fn resolve_node<D: BlockDevice>(
    device: &D,
    range: ByteRange,
    container: &ApfsContainer,
    volume: &ApfsVolume,
    oid: u64,
    xid: u64,
) -> (r: RecoveryResult<u64>)
    ensures
        r matches Ok(block) ==> block < container.block_count,
        volume.omap_oid == 0 ==> r is Err,
        ({
            let key = ApfsObjectMapKey { oid, xid };
            let v = omap_lookup_value(device.contents(), range, *container, volume.omap_oid, key);
            &&& readable(device)
            &&& volume.omap_oid != 0
            &&& omap_lookup_ok(device.contents(), range, *container, volume.omap_oid, key)
            &&& !value_deleted(v) && v.physical_address < container.block_count
        }) ==> r == Ok::<u64, RecoveryError>(node_block(device.contents(), range, *container, *volume, oid, xid)),
{
    let mapping = lookup_volume_object(device, range, container, volume, ApfsObjectMapKey { oid, xid })?;
    if mapping.is_deleted() {
        return Err(io_error("APFS catalog node mapping is deleted"));
    }
    if mapping.physical_address >= container.block_count {
        return Err(
            RecoveryError::OutOfRange {
                offset: mapping.physical_address,
                length: 1,
                capacity: container.block_count,
            },
        );
    }
    Ok(mapping.physical_address)
}

/// One step of a walk over virtual node ids.
fn walk_virtual<D: BlockDevice>(
    device: &D,
    range: ByteRange,
    container: &ApfsContainer,
    volume: &ApfsVolume,
    node_oid: u64,
    xid: u64,
    depth: usize,
    visited: &mut Vec<u64>,
    out: &mut Vec<ApfsCatalogRecord>,
) -> (r: RecoveryResult<()>)
    requires
        depth <= MAX_DEPTH,
        all_leaf_records(device.contents(), range.offset as int, *container, old(out)@),
    ensures
        all_leaf_records(device.contents(), range.offset as int, *container, final(out)@),
        r is Ok ==> final(visited)@ == old(visited)@,
        depth >= MAX_DEPTH || old(visited)@.contains(node_oid) || volume.omap_oid == 0 ==> r is Err,
        readable(device) && virtual_tree_ok(device.contents(), range, *container, *volume, node_oid, xid, depth as int, old(visited)@)
            ==> r is Ok && record_views(final(out)@) == record_views(old(out)@) + virtual_leaves(
            device.contents(),
            range,
            *container,
            *volume,
            node_oid,
            xid,
            depth as int,
            old(visited)@,
        ),
    decreases MAX_DEPTH - depth,
{
    let ghost start_out = out@;
    let ghost owed = readable(device) && virtual_tree_ok(
        device.contents(),
        range,
        *container,
        *volume,
        node_oid,
        xid,
        depth as int,
        old(visited)@,
    );
    if depth >= MAX_DEPTH {
        return Err(io_error("APFS catalog tree exceeds depth limit"));
    }
    if crate::apfs::volume::contains_oid(visited, node_oid) {
        return Err(io_error("APFS catalog tree contains a cycle"));
    }
    visited.push(node_oid);
    let physical = resolve_node(device, range, container, volume, node_oid, xid)?;
    let (block, entries) = read_checked_node(device, range, container, physical)?;
    let node = crate::apfs::btree::parse_btree_node(block.as_slice())?;
    if node.is_leaf() {
        append_leaf(&block, entries, out, Ghost(device.contents()), Ghost(range.offset as int), container, Ghost(physical));
    } else {
        let mut i: usize = 0;
        while i < entries.len()
            invariant
                depth < MAX_DEPTH,
                i <= entries@.len(),
                all_leaf_records(device.contents(), range.offset as int, *container, out@),
                visited@ == old(visited)@.push(node_oid),
                entries@.len() == node_of(block@).key_count,
                forall|j: int| 0 <= j < entries@.len() ==> (#[trigger] entries@[j]).value@ == variable_value(block@, j),
                block@ == object_block(device.contents(), range.offset as int, *container, physical),
                node.flags & FLAG_LEAF == 0,
                node == node_of(block@),
                owed ==> physical == node_block(device.contents(), range, *container, *volume, node_oid, xid),
                owed == (readable(device) && virtual_tree_ok(
                    device.contents(),
                    range,
                    *container,
                    *volume,
                    node_oid,
                    xid,
                    depth as int,
                    old(visited)@,
                )),
                owed ==> record_views(out@) == record_views(start_out) + virtual_children(
                    device.contents(),
                    range,
                    *container,
                    *volume,
                    block@,
                    xid,
                    depth as int,
                    old(visited)@.push(node_oid),
                    i as int,
                ),
            decreases entries@.len() - i,
        {
            proof {
                if owed {
                    assert(variable_value(block@, i as int).len() == 8);
                }
            }
            let child = child_oid(&entries[i])?;
            walk_virtual(device, range, container, volume, child, xid, depth + 1, visited, out)?;
            proof {
                if owed {
                    assert(child == branch_child(block@, i as int));
                    assert(record_views(out@) =~= record_views(start_out) + virtual_children(
                        device.contents(),
                        range,
                        *container,
                        *volume,
                        block@,
                        xid,
                        depth as int,
                        old(visited)@.push(node_oid),
                        i + 1,
                    ));
                }
            }
            i = i + 1;
        }
    }
    visited.pop();
    Ok(())
}

/// Traverses a volume catalog, resolving every virtual node reference
/// through the volume object map: catalog branch values are object ids, not
/// physical addresses. Every node's checksum is verified.
pub fn read_volume_catalog_records<D: BlockDevice>(
    device: &D,
    range: ByteRange,
    container: &ApfsContainer,
    volume: &ApfsVolume,
    xid: u64,
) -> (r: RecoveryResult<Vec<ApfsCatalogRecord>>)
    ensures
        volume.root_tree_oid == 0 || volume.omap_oid == 0 ==> r is Err,
        r matches Ok(records) ==> all_leaf_records(device.contents(), range.offset as int, *container, records@),
        readable(device) && volume.root_tree_oid != 0 && virtual_tree_ok(
            device.contents(),
            range,
            *container,
            *volume,
            volume.root_tree_oid,
            xid,
            0,
            Seq::empty(),
        ) ==> (r matches Ok(records) && record_views(records@) == virtual_leaves(
            device.contents(),
            range,
            *container,
            *volume,
            volume.root_tree_oid,
            xid,
            0,
            Seq::empty(),
        )),
{
    if volume.root_tree_oid == 0 {
        return Err(io_error("APFS volume has no root-tree OID"));
    }
    let mut visited: Vec<u64> = Vec::new();
    let mut records: Vec<ApfsCatalogRecord> = Vec::new();
    assert(visited@ == Seq::<u64>::empty());
    assert(record_views(records@) =~= Seq::<(Seq<u8>, Seq<u8>)>::empty());
    walk_virtual(device, range, container, volume, volume.root_tree_oid, xid, 0, &mut visited, &mut records)?;
    assert(Seq::<(Seq<u8>, Seq<u8>)>::empty() + virtual_leaves(device.contents(), range, *container, *volume, volume.root_tree_oid, xid, 0, Seq::empty()) =~= virtual_leaves(device.contents(), range, *container, *volume, volume.root_tree_oid, xid, 0, Seq::empty()));
    Ok(records)
}

} // verus!
