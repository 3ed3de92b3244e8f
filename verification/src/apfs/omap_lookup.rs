//! Resolving a virtual object id through an object map's B-tree.

use vstd::prelude::*;
use std::cmp::Ordering;
use crate::apfs::btree::{
    btree_fixed_entries, fixed_entries_ok, fixed_key, fixed_value, node_of, node_valid, parse_btree_node,
    ApfsFixedBtreeEntry, FLAG_FIXED_KV_SIZE, FLAG_LEAF,
};
use crate::apfs::omap::{omap_key_of, omap_value_of, ApfsObjectMap, ApfsObjectMapKey, ApfsObjectMapValue};
use crate::apfs::{object_offset, object_readable, read_object, ApfsContainer};
use crate::bytes::{le_u32, le_u64, spec_le_u64};
use crate::device::{readable, span, BlockDevice};
use crate::range::{io_error, ByteRange, RecoveryError, RecoveryResult};

verus! {

pub const OMAP_KEY_SIZE: usize = 16;
pub const OMAP_LEAF_VALUE_SIZE: usize = 16;
pub const OMAP_BRANCH_VALUE_SIZE: usize = 8;
pub const MAX_DEPTH: usize = 64;

/// Where a key stands relative to a lookup target.
#[derive(Clone, Copy, Debug, PartialEq, Eq)]
pub enum KeyOrder {
    Less,
    Equal,
    Greater,
}

/// Object map keys order by object id, then transaction id.
pub open spec fn key_before(a: ApfsObjectMapKey, b: ApfsObjectMapKey) -> bool {
    a.oid < b.oid || (a.oid == b.oid && a.xid < b.xid)
}

/// Places `target` against a 16-byte object map key: `Less` when the
/// target comes before the key, `Greater` when it comes after it.
pub fn key_order(bytes: &[u8], target: ApfsObjectMapKey) -> (r: RecoveryResult<KeyOrder>)
    ensures
        r is Ok <==> bytes@.len() == OMAP_KEY_SIZE,
        r matches Ok(o) ==> {
            let k = omap_key_of(bytes@);
            &&& (o is Less <==> key_before(target, k))
            &&& (o is Equal <==> k == target)
            &&& (o is Greater <==> key_before(k, target))
        },
{
    if bytes.len() != OMAP_KEY_SIZE {
        return Err(io_error("APFS object-map key has unexpected size"));
    }
    let oid = le_u64(bytes, 0);
    let xid = le_u64(bytes, 8);
    if target.oid < oid || (target.oid == oid && target.xid < xid) {
        Ok(KeyOrder::Less)
    } else if oid == target.oid && xid == target.xid {
        Ok(KeyOrder::Equal)
    } else {
        Ok(KeyOrder::Greater)
    }
}

/// Compares a 16-byte object map key with `target`, giving the order of
/// `target` against the key: `Less` when the target comes before it.
pub fn compare_key(bytes: &[u8], target: ApfsObjectMapKey) -> (r: RecoveryResult<Ordering>)
    ensures
        r is Ok <==> bytes@.len() == OMAP_KEY_SIZE,
        r matches Ok(o) ==> {
            let k = omap_key_of(bytes@);
            &&& (o == Ordering::Less <==> key_before(target, k))
            &&& (o == Ordering::Equal <==> k == target)
            &&& (o == Ordering::Greater <==> key_before(k, target))
        },
{
    match key_order(bytes, target) {
        Ok(KeyOrder::Less) => Ok(Ordering::Less),
        Ok(KeyOrder::Equal) => Ok(Ordering::Equal),
        Ok(KeyOrder::Greater) => Ok(Ordering::Greater),
        Err(e) => Err(e),
    }
}

/// The block holding object `oid`.
pub open spec fn object_block(contents: Seq<u8>, start: int, container: ApfsContainer, oid: u64) -> Seq<u8> {
    let o = object_offset(container, start, oid);
    contents.subrange(o, o + container.block_size)
}

/// The `i`-th key of an object map node.
pub open spec fn node_key(block: Seq<u8>, i: int) -> ApfsObjectMapKey {
    omap_key_of(fixed_key(block, i, OMAP_KEY_SIZE as int))
}

/// Whether entry `i` of the leaf `block` is the one a lookup of `target`
/// settles on: every key before it comes before the target, its own key does
/// not come after it, and it is either the target itself or the last entry
/// before a key past the target.
pub open spec fn leaf_choice(block: Seq<u8>, i: int, target: ApfsObjectMapKey) -> bool {
    let n = node_of(block);
    &&& node_valid(block)
    &&& n.flags & FLAG_LEAF != 0
    &&& n.flags & FLAG_FIXED_KV_SIZE != 0
    &&& 0 <= i < n.key_count
    &&& forall|j: int| 0 <= j < i ==> key_before(#[trigger] node_key(block, j), target)
    &&& !key_before(target, node_key(block, i))
    &&& (node_key(block, i) == target || i == n.key_count - 1 || key_before(target, node_key(block, i + 1)))
}

/// The entry of a leaf `block` a lookup of `target` settles on, scanning
/// from `k` with `best` the last entry before the target so far (-1 for
/// none): the target itself, or the last entry before it.
pub open spec fn leaf_pick(block: Seq<u8>, target: ApfsObjectMapKey, k: int, best: int) -> int
    decreases node_of(block).key_count - k,
{
    if k < 0 || k >= node_of(block).key_count {
        best
    } else if node_key(block, k) == target {
        k
    } else if key_before(node_key(block, k), target) {
        leaf_pick(block, target, k + 1, k)
    } else {
        best
    }
}

/// Extracts a leaf value.
fn leaf_value(entry: &ApfsFixedBtreeEntry) -> (v: ApfsObjectMapValue)
    requires
        entry.value@.len() == OMAP_LEAF_VALUE_SIZE,
    ensures
        v == omap_value_of(entry.value@),
{
    ApfsObjectMapValue {
        flags: le_u32(entry.value.as_slice(), 0),
        size: le_u32(entry.value.as_slice(), 4),
        physical_address: le_u64(entry.value.as_slice(), 8),
    }
}

/// Chooses the value a leaf holds for `target`.
fn search_leaf(entries: &Vec<ApfsFixedBtreeEntry>, target: ApfsObjectMapKey, block: Ghost<Seq<u8>>) -> (r: RecoveryResult<ApfsObjectMapValue>)
    requires
        forall|i: int| 0 <= i < entries@.len() ==> (#[trigger] entries@[i]).key@ == fixed_key(block@, i, OMAP_KEY_SIZE as int)
            && entries@[i].value@ == fixed_value(block@, i, OMAP_LEAF_VALUE_SIZE as int),
        forall|i: int| 0 <= i < entries@.len() ==> (#[trigger] entries@[i]).key@.len() == OMAP_KEY_SIZE
            && entries@[i].value@.len() == OMAP_LEAF_VALUE_SIZE,
        node_valid(block@),
        node_of(block@).flags & FLAG_LEAF != 0,
        node_of(block@).flags & FLAG_FIXED_KV_SIZE != 0,
        entries@.len() == node_of(block@).key_count,
    ensures
        r matches Ok(v) ==> exists|i: int|
            #[trigger] leaf_choice(block@, i, target) && v == omap_value_of(fixed_value(block@, i, OMAP_LEAF_VALUE_SIZE as int)),
        r is Ok <==> entries@.len() > 0 && !key_before(target, node_key(block@, 0)),
        r matches Ok(v) ==> v == omap_value_of(fixed_value(block@, leaf_pick(block@, target, 0, -1), OMAP_LEAF_VALUE_SIZE as int)),
{
    let mut best: Option<ApfsObjectMapValue> = None;
    let ghost mut best_index: int = -1;
    let mut k: usize = 0;
    while k < entries.len()
        invariant
            forall|i: int| 0 <= i < entries@.len() ==> (#[trigger] entries@[i]).key@ == fixed_key(block@, i, OMAP_KEY_SIZE as int)
                && entries@[i].value@ == fixed_value(block@, i, OMAP_LEAF_VALUE_SIZE as int),
            forall|i: int| 0 <= i < entries@.len() ==> (#[trigger] entries@[i]).key@.len() == OMAP_KEY_SIZE
                && entries@[i].value@.len() == OMAP_LEAF_VALUE_SIZE,
            node_valid(block@),
            node_of(block@).flags & FLAG_LEAF != 0,
            node_of(block@).flags & FLAG_FIXED_KV_SIZE != 0,
            entries@.len() == node_of(block@).key_count,
            k <= entries@.len(),
            forall|j: int| 0 <= j < k ==> key_before(#[trigger] node_key(block@, j), target),
            best is None ==> k == 0,
            best is Some ==> k >= 1,
            best matches Some(v) ==> best_index == k - 1 && v == omap_value_of(fixed_value(block@, best_index, OMAP_LEAF_VALUE_SIZE as int)),
            best is None ==> best_index == -1,
            leaf_pick(block@, target, 0, -1) == leaf_pick(block@, target, k as int, best_index),
        decreases entries@.len() - k,
    {
        let entry = &entries[k];
        assert(omap_key_of(entry.key@) == node_key(block@, k as int));
        assert(k > 0 ==> key_before(node_key(block@, 0), target));
        match key_order(entry.key.as_slice(), target)? {
            KeyOrder::Equal => {
                let v = leaf_value(entry);
                assert(leaf_choice(block@, k as int, target));
                return Ok(v);
            },
            KeyOrder::Greater => {
                best = Some(leaf_value(entry));
                proof {
                    best_index = k as int;
                }
            },
            KeyOrder::Less => {
                match best {
                    Some(v) => {
                        assert(leaf_choice(block@, best_index, target));
                        return Ok(v);
                    },
                    None => {
                        return Err(io_error("APFS object-map key is not present"));
                    },
                }
            },
        }
        k = k + 1;
    }
    match best {
        Some(v) => {
            assert(leaf_choice(block@, best_index, target));
            Ok(v)
        },
        None => Err(io_error("APFS object-map key is not present")),
    }
}

/// The child a branch node's `entries` lead to for `target`, scanning from
/// entry `k` with `child` chosen so far: the value of the last entry whose
/// key does not come after the target, before the first that does; `None`
/// inside when no entry qualifies, and `None` outside when a key met on the
/// way is not 16 bytes long.
pub open spec fn branch_scan(
    entries: Seq<ApfsFixedBtreeEntry>,
    target: ApfsObjectMapKey,
    k: int,
    child: Option<u64>,
) -> Option<Option<u64>>
    decreases entries.len() - k,
{
    if k >= entries.len() || k < 0 {
        Some(child)
    } else if entries[k].key@.len() != OMAP_KEY_SIZE {
        None
    } else if key_before(target, omap_key_of(entries[k].key@)) {
        Some(child)
    } else {
        branch_scan(entries, target, k + 1, Some(spec_le_u64(entries[k].value@, 0) as u64))
    }
}

/// The child a branch node leads to for `target`: the last entry whose key
/// does not come after it, before the first that does.
fn search_branch(entries: &Vec<ApfsFixedBtreeEntry>, target: ApfsObjectMapKey) -> (r: RecoveryResult<Option<u64>>)
    requires
        forall|i: int| 0 <= i < entries@.len() ==> (#[trigger] entries@[i]).value@.len() == OMAP_BRANCH_VALUE_SIZE,
    ensures
        match branch_scan(entries@, target, 0, None) {
            Some(c) => r == Ok::<Option<u64>, RecoveryError>(c),
            None => r is Err,
        },
{
    let mut child: Option<u64> = None;
    let mut k: usize = 0;
    while k < entries.len()
        invariant
            forall|i: int| 0 <= i < entries@.len() ==> (#[trigger] entries@[i]).value@.len() == OMAP_BRANCH_VALUE_SIZE,
            k <= entries@.len(),
            branch_scan(entries@, target, 0, None) == branch_scan(entries@, target, k as int, child),
        decreases entries@.len() - k,
    {
        let entry = &entries[k];
        match key_order(entry.key.as_slice(), target)? {
            KeyOrder::Less => {
                return Ok(child);
            },
            _ => {
                child = Some(le_u64(entry.value.as_slice(), 0));
            },
        }
        k = k + 1;
    }
    Ok(child)
}

/// The child a branch node `block` leads to for `target`, scanning its
/// entries from `k` with `child` chosen so far.
pub open spec fn branch_choice(block: Seq<u8>, target: ApfsObjectMapKey, k: int, child: Option<u64>) -> Option<u64>
    decreases node_of(block).key_count - k,
{
    if k < 0 || k >= node_of(block).key_count {
        child
    } else if key_before(target, node_key(block, k)) {
        child
    } else {
        branch_choice(block, target, k + 1, Some(spec_le_u64(fixed_value(block, k, OMAP_BRANCH_VALUE_SIZE as int), 0) as u64))
    }
}

/// The value a lookup of `target` from node `oid`, with `depth` more levels
/// allowed, finds: following each branch's choice down to a leaf and taking
/// the entry the leaf settles on.
pub open spec fn omap_result(
    contents: Seq<u8>,
    range: ByteRange,
    container: ApfsContainer,
    target: ApfsObjectMapKey,
    oid: u64,
    depth: nat,
) -> ApfsObjectMapValue
    decreases depth,
{
    let b = object_block(contents, range.offset as int, container, oid);
    if node_of(b).flags & FLAG_LEAF != 0 {
        omap_value_of(fixed_value(b, leaf_pick(b, target, 0, -1), OMAP_LEAF_VALUE_SIZE as int))
    } else if depth > 0 && branch_choice(b, target, 0, None) is Some {
        omap_result(contents, range, container, target, branch_choice(b, target, 0, None)->0, (depth - 1) as nat)
    } else {
        ApfsObjectMapValue { flags: 0, size: 0, physical_address: 0 }
    }
}

/// Whether a lookup of `target` that reaches node `oid`, with `depth` more
/// levels allowed and `visited` nodes behind it, reads through to a leaf:
/// every node on the way is a readable, well-formed fixed-size node that
/// has not been visited, each branch leads to a block of the container, and
/// the leaf holds a key no later than the target.
pub open spec fn omap_walk_ok(
    contents: Seq<u8>,
    range: ByteRange,
    container: ApfsContainer,
    target: ApfsObjectMapKey,
    oid: u64,
    depth: nat,
    visited: Seq<u64>,
) -> bool
    decreases depth,
{
    let b = object_block(contents, range.offset as int, container, oid);
    let n = node_of(b);
    &&& depth > 0
    &&& !visited.contains(oid)
    &&& object_readable(contents, range, container, oid)
    &&& n.flags & FLAG_FIXED_KV_SIZE != 0
    &&& n.key_count > 0
    &&& if n.flags & FLAG_LEAF != 0 {
        &&& fixed_entries_ok(b, OMAP_KEY_SIZE as int, OMAP_LEAF_VALUE_SIZE as int)
        &&& !key_before(target, node_key(b, 0))
    } else {
        &&& fixed_entries_ok(b, OMAP_KEY_SIZE as int, OMAP_BRANCH_VALUE_SIZE as int)
        &&& branch_choice(b, target, 0, None) matches Some(child) && child < container.block_count && omap_walk_ok(
            contents,
            range,
            container,
            target,
            child,
            (depth - 1) as nat,
            visited.push(oid),
        )
    }
}

/// The entries of a branch block scan as the block does.
proof fn lemma_branch_scan(
    entries: Seq<ApfsFixedBtreeEntry>,
    block: Seq<u8>,
    target: ApfsObjectMapKey,
    k: int,
    child: Option<u64>,
)
    requires
        entries.len() == node_of(block).key_count,
        forall|i: int|
            0 <= i < entries.len() ==> (#[trigger] entries[i]).key@ == fixed_key(block, i, OMAP_KEY_SIZE as int)
                && entries[i].value@ == fixed_value(block, i, OMAP_BRANCH_VALUE_SIZE as int)
                && entries[i].key@.len() == OMAP_KEY_SIZE,
        0 <= k,
    ensures
        branch_scan(entries, target, k, child) == Some(branch_choice(block, target, k, child)),
    decreases entries.len() - k,
{
    if k < entries.len() {
        assert(entries[k].key@ == fixed_key(block, k, OMAP_KEY_SIZE as int));
        lemma_branch_scan(
            entries,
            block,
            target,
            k + 1,
            Some(spec_le_u64(fixed_value(block, k, OMAP_BRANCH_VALUE_SIZE as int), 0) as u64),
        );
    }
}

/// Looks `target` up in an object map's B-tree, descending from its root to
/// a leaf while refusing cycles and trees deeper than the limit.
pub fn lookup_object_map<D: BlockDevice>(
    device: &D,
    range: ByteRange,
    container: &ApfsContainer,
    omap: &ApfsObjectMap,
    target: ApfsObjectMapKey,
) -> (r: RecoveryResult<ApfsObjectMapValue>)
    ensures
        target.oid < omap.min_oid ==> r is Err,
        omap.tree_oid >= container.block_count ==> r is Err,
        r matches Ok(v) ==> exists|oid: u64, i: int|
            #![trigger leaf_choice(object_block(device.contents(), range.offset as int, *container, oid), i, target)]
            oid < container.block_count && leaf_choice(
                object_block(device.contents(), range.offset as int, *container, oid),
                i,
                target,
            ) && v == omap_value_of(
                fixed_value(
                    object_block(device.contents(), range.offset as int, *container, oid),
                    i,
                    OMAP_LEAF_VALUE_SIZE as int,
                ),
            ),
        readable(device) && target.oid >= omap.min_oid && omap.tree_oid < container.block_count && omap_walk_ok(
            device.contents(),
            range,
            *container,
            target,
            omap.tree_oid,
            MAX_DEPTH as nat,
            Seq::empty(),
        ) ==> r == Ok::<ApfsObjectMapValue, RecoveryError>(
            omap_result(device.contents(), range, *container, target, omap.tree_oid, MAX_DEPTH as nat),
        ),
{
    if target.oid < omap.min_oid {
        return Err(io_error("APFS object-map lookup is below minimum OID"));
    }
    if omap.tree_oid >= container.block_count {
        return Err(
            RecoveryError::OutOfRange { offset: omap.tree_oid, length: 1, capacity: container.block_count },
        );
    }
    let mut node_oid = omap.tree_oid;
    let mut visited: Vec<u64> = Vec::new();
    let mut depth: usize = 0;
    let ghost owed = readable(device) && omap_walk_ok(
        device.contents(),
        range,
        *container,
        target,
        omap.tree_oid,
        MAX_DEPTH as nat,
        Seq::empty(),
    );
    while depth < MAX_DEPTH
        invariant
            node_oid < container.block_count,
            target.oid >= omap.min_oid,
            omap.tree_oid < container.block_count,
            depth <= MAX_DEPTH,
            owed == (readable(device) && omap_walk_ok(
                device.contents(),
                range,
                *container,
                target,
                omap.tree_oid,
                MAX_DEPTH as nat,
                Seq::empty(),
            )),
            owed ==> omap_walk_ok(
                device.contents(),
                range,
                *container,
                target,
                node_oid,
                (MAX_DEPTH - depth) as nat,
                visited@,
            ),
            owed ==> omap_result(device.contents(), range, *container, target, omap.tree_oid, MAX_DEPTH as nat)
                == omap_result(device.contents(), range, *container, target, node_oid, (MAX_DEPTH - depth) as nat),
        decreases MAX_DEPTH - depth,
    {
        let mut seen = false;
        let mut s: usize = 0;
        while s < visited.len()
            invariant
                s <= visited@.len(),
                seen == visited@.take(s as int).contains(node_oid),
            decreases visited.len() - s,
        {
            let ghost pre = visited@.take(s as int);
            assert(visited@.take(s + 1) == pre.push(visited@[s as int]));
            assert(pre.push(visited@[s as int]).contains(node_oid) == (pre.contains(node_oid) || visited@[s as int] == node_oid))
                by {
                let q = pre.push(visited@[s as int]);
                if q.contains(node_oid) {
                    let k = choose|k: int| 0 <= k < q.len() && q[k] == node_oid;
                    if k < pre.len() {
                        assert(pre[k] == node_oid);
                    }
                }
                if pre.contains(node_oid) {
                    let k = choose|k: int| 0 <= k < pre.len() && pre[k] == node_oid;
                    assert(q[k] == node_oid);
                }
                if visited@[s as int] == node_oid {
                    assert(q[pre.len() as int] == node_oid);
                }
            }
            if visited[s] == node_oid {
                seen = true;
            }
            s = s + 1;
        }
        assert(visited@.take(visited@.len() as int) == visited@);
        if seen {
            return Err(io_error("APFS object-map tree contains a cycle"));
        }
        visited.push(node_oid);
        let block = read_object(device, range, container, node_oid)?;
        let ghost b = block@;
        assert(b == object_block(device.contents(), range.offset as int, *container, node_oid));
        let node = parse_btree_node(block.as_slice())?;
        if !node.has_fixed_kv_size() {
            return Err(io_error("APFS object-map node is not fixed-size"));
        }
        let leaf = node.is_leaf();
        let value_size = if leaf {
            OMAP_LEAF_VALUE_SIZE
        } else {
            OMAP_BRANCH_VALUE_SIZE
        };
        let entries = btree_fixed_entries(block.as_slice(), OMAP_KEY_SIZE, value_size)?;
        if entries.len() == 0 {
            return Err(io_error("APFS object-map node has no entries"));
        }
        proof {
            assert forall|i: int| 0 <= i < entries@.len() implies (#[trigger] entries@[i]).key@.len() == OMAP_KEY_SIZE
                && entries@[i].value@.len() == value_size by {
                assert(entries@[i].key@ == fixed_key(b, i, OMAP_KEY_SIZE as int));
                assert(entries@[i].value@ == fixed_value(b, i, value_size as int));
            }
        }
        if leaf {
            let v = search_leaf(&entries, target, Ghost(b))?;
            return Ok(v);
        }
        proof {
            lemma_branch_scan(entries@, b, target, 0, None);
        }
        let child = search_branch(&entries, target)?;
        node_oid = match child {
            Some(c) => c,
            None => return Err(io_error("APFS object-map lookup has no child for target")),
        };
        if node_oid >= container.block_count {
            return Err(
                RecoveryError::OutOfRange { offset: node_oid, length: 1, capacity: container.block_count },
            );
        }
        depth = depth + 1;
    }
    Err(io_error("APFS object-map tree exceeds depth limit"))
}

} // verus!
