//! Selecting the newest valid container superblock from the checkpoint
//! descriptor area.

use vstd::prelude::*;
use crate::apfs::checksum::{checksum_valid, verify_fletcher64};
use crate::apfs::{
    container_of, container_superblock_valid, header_of, object_offset, object_readable,
    parse_container_superblock, parse_object_header, read_object, u32_at, u64_at, ApfsContainer,
};
use crate::bytes::{spec_le_u32, spec_le_u64};
use crate::device::{read_exact, readable, span, BlockDevice};
use crate::range::{io_error, ByteRange, RecoveryError, RecoveryResult};

verus! {

pub const NX_SUPERBLOCK_TYPE: u32 = 0x0000_0001;
pub const XP_DESC_FRAGMENTED: u32 = 0x8000_0000;
pub const MAX_CHECKPOINT_BLOCKS: u32 = 1_048_576;
pub const NX_XP_DESC_BLOCKS: usize = 0x68;
pub const NX_XP_DESC_BASE: usize = 0x70;
pub const NX_XP_DESC_INDEX: usize = 0x88;
pub const NX_XP_DESC_LEN: usize = 0x8c;

/// Where in its descriptor ring a checkpoint superblock says it sits: the
/// final block of its window.
pub open spec fn ring_position(desc_index: int, desc_len: int, desc_blocks: int) -> int {
    (desc_index + desc_len - 1) % desc_blocks
}

/// Executable form of [`ring_position`].
pub fn checkpoint_position(desc_index: u64, desc_len: u64, desc_blocks: u64) -> (r: u64)
    requires
        desc_blocks > 0,
        desc_len > 0,
        desc_index + desc_len <= u64::MAX,
    ensures
        r == ring_position(desc_index as int, desc_len as int, desc_blocks as int),
{
    (desc_index + desc_len - 1) % desc_blocks
}

/// Whether `b`, found at position `index` of the descriptor area, is a
/// checkpoint superblock that may stand for the container: its checksum
/// holds, it is a container superblock, its self-described ring position is
/// where it was found, and the container it describes fits in `range_length`.
#[verifier::opaque]
pub open spec fn checkpoint_candidate(b: Seq<u8>, index: int, range_length: int) -> bool {
    &&& ring_matches(b, index)
    &&& container_of(b).block_size * container_of(b).block_count <= range_length
}

/// Whether `b`, found at position `index` of the descriptor area, passes
/// every check of a checkpoint candidate but the size of its container:
/// its checksum holds, it is a container superblock, and its self-described
/// ring position is where it was found.
pub open spec fn ring_matches(b: Seq<u8>, index: int) -> bool {
    let blocks = spec_le_u32(b, NX_XP_DESC_BLOCKS as int) as u32 & 0x7fff_ffffu32;
    let desc_index = spec_le_u32(b, NX_XP_DESC_INDEX as int);
    let desc_len = spec_le_u32(b, NX_XP_DESC_LEN as int);
    &&& checksum_valid(b)
    &&& b.len() >= 32
    &&& header_of(b).object_type & 0xffffu32 == NX_SUPERBLOCK_TYPE
    &&& container_superblock_valid(b)
    &&& 0 < blocks <= MAX_CHECKPOINT_BLOCKS
    &&& desc_index < blocks
    &&& 0 < desc_len <= blocks
    &&& ring_position(desc_index, desc_len, blocks as int) == index
}

/// The block at position `index` of the descriptor area of `base`.
pub open spec fn descriptor_block(contents: Seq<u8>, start: int, base: ApfsContainer, desc_base: int, index: int) -> Seq<u8> {
    let offset = object_offset(base, start, (desc_base + index) as u64);
    contents.subrange(offset, offset + base.block_size)
}

/// Judges one block of the descriptor area found at position `index`: its
/// transaction id and container when it is a checkpoint candidate.
pub fn evaluate_candidate(block: &Vec<u8>, index: u32, range_length: u64) -> (r: RecoveryResult<Option<(u64, ApfsContainer)>>)
    ensures
        r matches Ok(Some((x, c))) ==> checkpoint_candidate(block@, index as int, range_length as int)
            && x == header_of(block@).xid && c == container_of(block@),
        r matches Ok(None) ==> !checkpoint_candidate(block@, index as int, range_length as int),
        ring_matches(block@, index as int) ==> container_of(block@).block_size * container_of(block@).block_count <= u64::MAX
            ==> r is Ok,
        r is Err ==> ring_matches(block@, index as int),
{
    reveal(checkpoint_candidate);
    if verify_fletcher64(block.as_slice()).is_err() {
        return Ok(None);
    }
    let header = match parse_object_header(block.as_slice()) {
        Ok(h) => h,
        Err(_) => return Ok(None),
    };
    if header.object_type & 0x0000_ffff != NX_SUPERBLOCK_TYPE {
        return Ok(None);
    }
    let candidate = match parse_container_superblock(block.as_slice()) {
        Ok(c) => c,
        Err(_) => return Ok(None),
    };
    // A checkpoint superblock is the final block in its descriptor window.
    // Require its self-described ring position to agree with the physical
    // position scanned; otherwise stale or corrupt superblock-like data could
    // win merely by a large transaction id.
    let candidate_desc_blocks = (u32_at(block.as_slice(), NX_XP_DESC_BLOCKS) & 0x7fff_ffff) as u64;
    let candidate_desc_index = u32_at(block.as_slice(), NX_XP_DESC_INDEX) as u64;
    let candidate_desc_len = u32_at(block.as_slice(), NX_XP_DESC_LEN) as u64;
    if candidate_desc_blocks == 0 || candidate_desc_blocks > MAX_CHECKPOINT_BLOCKS as u64
        || candidate_desc_index >= candidate_desc_blocks || candidate_desc_len == 0
        || candidate_desc_len > candidate_desc_blocks {
        return Ok(None);
    }
    let expected = checkpoint_position(candidate_desc_index, candidate_desc_len, candidate_desc_blocks);
    if expected != index as u64 {
        return Ok(None);
    }
    let candidate_bytes = match (candidate.block_size as u64).checked_mul(candidate.block_count) {
        Some(v) => v,
        None => return Err(RecoveryError::RangeOverflow),
    };
    if candidate_bytes > range_length {
        return Ok(None);
    }
    Ok(Some((header.xid, candidate)))
}

/// Whether `c` and `block` are the container superblock a reader selects
/// for a container in `range` of `contents`: the newest valid one, that is
/// the one with the greatest transaction id among the container's block
/// zero and the checkpoint candidates of its descriptor area. Block zero
/// wins unless a candidate is strictly newer; among equally new candidates
/// the first in the area wins.
#[verifier::opaque]
pub open spec fn latest_superblock(contents: Seq<u8>, range: ByteRange, c: ApfsContainer, block: Seq<u8>) -> bool {
        let n = if range.length < 65536 {
            range.length as int
        } else {
            65536
        };
        let initial = contents.subrange(range.offset as int, range.offset + n);
        let base = container_of(initial);
        let first = initial.take(base.block_size as int);
        let x0 = header_of(first).xid;
        let desc_blocks = spec_le_u32(initial, NX_XP_DESC_BLOCKS as int) as u32;
        let desc_base = spec_le_u64(initial, NX_XP_DESC_BASE as int);
        &&& container_superblock_valid(initial)
        &&& checksum_valid(first)
        &&& desc_blocks & XP_DESC_FRAGMENTED == 0
        &&& ({
            ||| (block == first && c == base && forall|i: int|
                0 <= i < desc_blocks && #[trigger] checkpoint_candidate(
                    descriptor_block(contents, range.offset as int, base, desc_base as int, i),
                    i,
                    range.length as int,
                ) ==> header_of(descriptor_block(contents, range.offset as int, base, desc_base as int, i)).xid <= x0)
            ||| exists|i: int|
                0 <= i < desc_blocks && block == descriptor_block(
                    contents,
                    range.offset as int,
                    base,
                    desc_base as int,
                    i,
                ) && #[trigger] checkpoint_candidate(block, i, range.length as int) && c
                    == container_of(block) && header_of(block).xid > x0 && forall|j: int|
                    0 <= j < desc_blocks && checkpoint_candidate(
                        descriptor_block(contents, range.offset as int, base, desc_base as int, j),
                        j,
                        range.length as int,
                    ) ==> header_of(descriptor_block(contents, range.offset as int, base, desc_base as int, j)).xid
                        <= header_of(block).xid && (j < i ==> header_of(
                        descriptor_block(contents, range.offset as int, base, desc_base as int, j),
                    ).xid < header_of(block).xid)
        })
}

/// Whether the container's first block is a valid, checksummed container
/// superblock inside the source and within `range`: what a reader checks
/// before it looks at the descriptor area.
pub open spec fn first_block_ok(contents: Seq<u8>, range: ByteRange) -> bool {
    let n = if range.length < 65536 {
        range.length as int
    } else {
        65536
    };
    let initial = contents.subrange(range.offset as int, range.offset + n);
    let base = container_of(initial);
    &&& range.within(contents.len() as int)
    &&& container_superblock_valid(initial)
    &&& base.block_size <= n
    &&& checksum_valid(initial.take(base.block_size as int))
    &&& base.block_size <= range.length
}

/// The descriptor-area word of the container's first block.
pub open spec fn first_desc_blocks(contents: Seq<u8>, range: ByteRange) -> u32 {
    let n = if range.length < 65536 {
        range.length as int
    } else {
        65536
    };
    spec_le_u32(contents.subrange(range.offset as int, range.offset + n), NX_XP_DESC_BLOCKS as int) as u32
}

/// The first block of the descriptor area named by the container's first block.
pub open spec fn first_desc_base(contents: Seq<u8>, range: ByteRange) -> u64 {
    let n = if range.length < 65536 {
        range.length as int
    } else {
        65536
    };
    spec_le_u64(contents.subrange(range.offset as int, range.offset + n), NX_XP_DESC_BASE as int) as u64
}

/// The container described by the first block.
pub open spec fn first_container(contents: Seq<u8>, range: ByteRange) -> ApfsContainer {
    let n = if range.length < 65536 {
        range.length as int
    } else {
        65536
    };
    container_of(contents.subrange(range.offset as int, range.offset + n))
}

/// Whether the newest container superblock of the container in `range`
/// can be read: the range lies in the source, the first block is a valid,
/// checksummed container superblock within the range whose descriptor area
/// is contiguous, and, when that area is not empty, it lies in the
/// container and in the range, with every container held by a block that
/// passes the candidate checks of a size that fits a `u64`.
#[verifier::opaque]
pub open spec fn latest_readable(contents: Seq<u8>, range: ByteRange) -> bool {
    let n = if range.length < 65536 {
        range.length as int
    } else {
        65536
    };
    let initial = contents.subrange(range.offset as int, range.offset + n);
    let base = container_of(initial);
    let desc_blocks = spec_le_u32(initial, NX_XP_DESC_BLOCKS as int) as u32;
    let desc_base = spec_le_u64(initial, NX_XP_DESC_BASE as int);
    &&& range.within(contents.len() as int)
    &&& container_superblock_valid(initial)
    &&& base.block_size <= n
    &&& checksum_valid(initial.take(base.block_size as int))
    &&& base.block_size <= range.length
    &&& desc_blocks & XP_DESC_FRAGMENTED == 0
    &&& desc_blocks != 0 ==> descriptor_area_ok(contents, range, base, desc_base, desc_blocks as int)
}

/// Whether a non-empty descriptor area of `desc_blocks` blocks from
/// `desc_base` is within the limit and the container, and every position of
/// it is sound.
pub open spec fn descriptor_area_ok(contents: Seq<u8>, range: ByteRange, base: ApfsContainer, desc_base: int, desc_blocks: int) -> bool {
    &&& desc_blocks <= MAX_CHECKPOINT_BLOCKS
    &&& desc_base + desc_blocks <= base.block_count
    &&& forall|i: int| 0 <= i < desc_blocks ==> #[trigger] descriptor_ok(contents, range, base, desc_base, i)
}

/// What a readable container's first block promises about its descriptor
/// area.
proof fn lemma_latest_readable(contents: Seq<u8>, range: ByteRange, i: int)
    requires
        latest_readable(contents, range),
    ensures
        ({
            let n = if range.length < 65536 {
                range.length as int
            } else {
                65536
            };
            let initial = contents.subrange(range.offset as int, range.offset + n);
            let base = container_of(initial);
            let desc_blocks = spec_le_u32(initial, NX_XP_DESC_BLOCKS as int) as u32;
            let desc_base = spec_le_u64(initial, NX_XP_DESC_BASE as int);
            &&& range.within(contents.len() as int)
            &&& container_superblock_valid(initial)
            &&& base.block_size <= n
            &&& checksum_valid(initial.take(base.block_size as int))
            &&& base.block_size <= range.length
            &&& desc_blocks & XP_DESC_FRAGMENTED == 0
            &&& desc_blocks != 0 ==> desc_blocks <= MAX_CHECKPOINT_BLOCKS && desc_base + desc_blocks <= base.block_count
            &&& desc_blocks != 0 && 0 <= i < desc_blocks ==> descriptor_ok(contents, range, base, desc_base, i)
        }),
{
    reveal(latest_readable);
    let n = if range.length < 65536 {
        range.length as int
    } else {
        65536
    };
    let initial = contents.subrange(range.offset as int, range.offset + n);
    let desc_blocks = spec_le_u32(initial, NX_XP_DESC_BLOCKS as int) as u32;
    let desc_base = spec_le_u64(initial, NX_XP_DESC_BASE as int);
    if desc_blocks != 0 && 0 <= i < desc_blocks {
        assert(descriptor_area_ok(contents, range, container_of(initial), desc_base, desc_blocks as int));
        assert(descriptor_ok(contents, range, container_of(initial), desc_base, i));
    }
}

/// Whether position `i` of the descriptor area lies in the container and in
/// the range, and, when its block passes the checks of a checkpoint
/// candidate, the container it holds has a size that fits a `u64`.
pub open spec fn descriptor_ok(contents: Seq<u8>, range: ByteRange, base: ApfsContainer, desc_base: int, i: int) -> bool {
    let b = descriptor_block(contents, range.offset as int, base, desc_base, i);
    &&& object_readable(contents, range, base, (desc_base + i) as u64)
    &&& ring_matches(b, i) ==> container_of(b).block_size * container_of(b).block_count <= u64::MAX
}

/// Whether, among the first `upto` blocks of the descriptor area, the
/// newest checkpoint candidate newer than block zero (whose transaction id
/// is `x0`) is the one at `best_i` with id `best_xid`, the first of equally
/// new ones; `best_i` is -1, and `best_xid` is `x0`, when none is newer.
#[verifier::opaque]
pub open spec fn newest_so_far(
    contents: Seq<u8>,
    start: int,
    base: ApfsContainer,
    desc_base: int,
    range_len: int,
    x0: u64,
    upto: int,
    best_i: int,
    best_xid: u64,
) -> bool {
    &&& best_i == -1 ==> best_xid == x0
    &&& best_i != -1 ==> {
        &&& 0 <= best_i < upto
        &&& checkpoint_candidate(descriptor_block(contents, start, base, desc_base, best_i), best_i, range_len)
        &&& best_xid == header_of(descriptor_block(contents, start, base, desc_base, best_i)).xid
        &&& best_xid > x0
        &&& forall|j: int|
            0 <= j < best_i && #[trigger] checkpoint_candidate(
                descriptor_block(contents, start, base, desc_base, j),
                j,
                range_len,
            ) ==> header_of(descriptor_block(contents, start, base, desc_base, j)).xid < best_xid
    }
    &&& forall|j: int|
        0 <= j < upto && #[trigger] checkpoint_candidate(descriptor_block(contents, start, base, desc_base, j), j, range_len)
            ==> header_of(descriptor_block(contents, start, base, desc_base, j)).xid <= best_xid
}

/// One more block of the descriptor area: it takes over when it is a
/// candidate strictly newer than the newest so far.
proof fn lemma_newest_step(
    contents: Seq<u8>,
    start: int,
    base: ApfsContainer,
    desc_base: int,
    range_len: int,
    x0: u64,
    upto: int,
    best_i: int,
    best_xid: u64,
    is_cand: bool,
    x: u64,
)
    requires
        newest_so_far(contents, start, base, desc_base, range_len, x0, upto, best_i, best_xid),
        upto >= 0,
        is_cand == checkpoint_candidate(descriptor_block(contents, start, base, desc_base, upto), upto, range_len),
        is_cand ==> x == header_of(descriptor_block(contents, start, base, desc_base, upto)).xid,
    ensures
        newest_so_far(
            contents,
            start,
            base,
            desc_base,
            range_len,
            x0,
            upto + 1,
            if is_cand && x > best_xid {
                upto
            } else {
                best_i
            },
            if is_cand && x > best_xid {
                x
            } else {
                best_xid
            },
        ),
{
    reveal(newest_so_far);
}

/// The selection over the whole descriptor area is the newest superblock.
proof fn lemma_newest_selects(
    contents: Seq<u8>,
    range: ByteRange,
    best_i: int,
    best_xid: u64,
    c: ApfsContainer,
    block: Seq<u8>,
)
    requires
        ({
            let n = if range.length < 65536 {
                range.length as int
            } else {
                65536
            };
            let initial = contents.subrange(range.offset as int, range.offset + n);
            let base = container_of(initial);
            let first = initial.take(base.block_size as int);
            let desc_blocks = spec_le_u32(initial, NX_XP_DESC_BLOCKS as int) as u32;
            let desc_base = spec_le_u64(initial, NX_XP_DESC_BASE as int);
            &&& container_superblock_valid(initial)
            &&& checksum_valid(first)
            &&& desc_blocks & XP_DESC_FRAGMENTED == 0
            &&& newest_so_far(
                contents,
                range.offset as int,
                base,
                desc_base as int,
                range.length as int,
                header_of(first).xid,
                desc_blocks as int,
                best_i,
                best_xid,
            )
            &&& best_i == -1 ==> block == first && c == base
            &&& best_i != -1 ==> block == descriptor_block(contents, range.offset as int, base, desc_base as int, best_i)
                && c == container_of(block)
        }),
    ensures
        latest_superblock(contents, range, c, block),
{
    reveal(newest_so_far);
    reveal(latest_superblock);
}

/// Locate the newest valid container superblock and return its physical block
/// together with the parsed container metadata. The physical block is needed
/// by discovery because the selected checkpoint may contain newer filesystem
/// object identifiers than block zero.
#[verifier::rlimit(80)]
#[verifier::spinoff_prover]
pub fn read_latest_container_superblock_with_block<D: BlockDevice>(
    device: &D,
    range: ByteRange,
) -> (r: RecoveryResult<(ApfsContainer, Vec<u8>)>)
    ensures
        r matches Ok((c, block)) ==> latest_superblock(device.contents(), range, c, block@),
        readable(device) && latest_readable(device.contents(), range) ==> r is Ok,
        readable(device) && first_block_ok(device.contents(), range) && first_desc_blocks(device.contents(), range)
            & XP_DESC_FRAGMENTED != 0 ==> r is Err,
        readable(device) && first_block_ok(device.contents(), range) && first_desc_blocks(device.contents(), range)
            & XP_DESC_FRAGMENTED == 0 && first_desc_blocks(device.contents(), range) > MAX_CHECKPOINT_BLOCKS ==> (r matches Err(
            RecoveryError::LengthTooLarge { length },
        ) && length == first_desc_blocks(device.contents(), range)),
        readable(device) && first_block_ok(device.contents(), range) && 0 < first_desc_blocks(device.contents(), range)
            <= MAX_CHECKPOINT_BLOCKS && first_desc_base(device.contents(), range) + first_desc_blocks(
            device.contents(),
            range,
        ) <= u64::MAX && first_desc_base(device.contents(), range) + first_desc_blocks(device.contents(), range)
            > first_container(device.contents(), range).block_count ==> (r matches Err(
            RecoveryError::OutOfRange { offset, length, capacity },
        ) && offset == first_desc_base(device.contents(), range) && length == first_desc_blocks(device.contents(), range)
            && capacity == first_container(device.contents(), range).block_count),
{
    reveal(latest_superblock);
    proof {
        if readable(device) && latest_readable(device.contents(), range) {
            lemma_latest_readable(device.contents(), range, 0);
        }
    }
    range.validate_within(device.capacity())?;
    let initial_len: u64 = if range.length < 65536 {
        range.length
    } else {
        65536
    };
    let initial = read_exact(device, range.offset, initial_len)?;
    let base = parse_container_superblock(initial.as_slice())?;
    let block_size = base.block_size as usize;
    if block_size > initial.len() {
        return Err(io_error("APFS container block exceeds initial read"));
    }
    let first = crate::bytes::copy_range(initial.as_slice(), 0, block_size);
    assert(first@ == initial@.take(block_size as int));
    verify_fletcher64(first.as_slice())?;
    if base.block_size as u64 > range.length {
        return Err(io_error("APFS container block exceeds supplied range"));
    }
    let desc_blocks_raw = u32_at(initial.as_slice(), NX_XP_DESC_BLOCKS);
    if desc_blocks_raw & XP_DESC_FRAGMENTED != 0 {
        assert(desc_blocks_raw & 0x8000_0000u32 != 0 ==> desc_blocks_raw > 1_048_576u32) by (bit_vector);
        return Err(io_error("APFS checkpoint descriptor area is fragmented and is not yet supported"));
    }
    let desc_blocks = desc_blocks_raw;
    if desc_blocks == 0 {
        return Ok((base, first));
    }
    if desc_blocks > MAX_CHECKPOINT_BLOCKS {
        return Err(RecoveryError::LengthTooLarge { length: desc_blocks as u64 });
    }
    let desc_base = u64_at(initial.as_slice(), NX_XP_DESC_BASE);
    let desc_end = match desc_base.checked_add(desc_blocks as u64) {
        Some(v) => v,
        None => return Err(RecoveryError::RangeOverflow),
    };
    if desc_end > base.block_count {
        return Err(
            RecoveryError::OutOfRange {
                offset: desc_base,
                length: desc_blocks as u64,
                capacity: base.block_count,
            },
        );
    }
    let ghost contents = device.contents();
    let ghost start = range.offset as int;
    let x0 = parse_object_header(first.as_slice())?.xid;
    let mut best_xid: u64 = x0;
    let mut best: Option<(ApfsContainer, Vec<u8>)> = None;
    let ghost mut best_i: int = -1;
    let mut index: u32 = 0;
    let ghost owed = readable(device) && latest_readable(device.contents(), range);
    proof {
        reveal(newest_so_far);
    }
    while index < desc_blocks
        invariant
            owed == (readable(device) && latest_readable(device.contents(), range)),
            desc_blocks == spec_le_u32(initial@, NX_XP_DESC_BLOCKS as int),
            desc_base == spec_le_u64(initial@, NX_XP_DESC_BASE as int),
            base == container_of(initial@),
            initial@ == contents.subrange(
                range.offset as int,
                range.offset + (if range.length < 65536 {
                    range.length as int
                } else {
                    65536
                }),
            ),
            contents == device.contents(),
            start == range.offset,
            index <= desc_blocks,
            desc_base + desc_blocks <= u64::MAX,
            desc_blocks <= MAX_CHECKPOINT_BLOCKS,
            desc_base + desc_blocks <= base.block_count,
            newest_so_far(contents, start, base, desc_base as int, range.length as int, x0, index as int, best_i, best_xid),
            best is None ==> best_i == -1,
            best matches Some((c, b)) ==> best_i != -1 && b@ == descriptor_block(contents, start, base, desc_base as int, best_i)
                && c == container_of(b@),
        decreases desc_blocks - index,
    {
        let oid = desc_base + index as u64;
        proof {
            if owed {
                lemma_latest_readable(device.contents(), range, index as int);
            }
        }
        let block = read_object(device, range, &base, oid)?;
        let ghost here = descriptor_block(contents, start, base, desc_base as int, index as int);
        assert(block@ == here);
        let verdict = evaluate_candidate(&block, index, range.length)?;
        let ghost is_cand = verdict is Some;
        let ghost x: u64 = match verdict {
            Some((xid, _)) => xid,
            None => 0,
        };
        proof {
            lemma_newest_step(contents, start, base, desc_base as int, range.length as int, x0, index as int, best_i, best_xid, is_cand, x);
        }
        match verdict {
            Some((xid, candidate)) => {
                if xid > best_xid {
                    best = Some((candidate, block));
                    best_xid = xid;
                    proof {
                        best_i = index as int;
                    }
                }
            },
            None => {},
        }
        index = index + 1;
    }
    match best {
        Some((container, block)) => {
            proof {
                lemma_newest_selects(contents, range, best_i, best_xid, container, block@);
            }
            Ok((container, block))
        },
        None => {
            proof {
                lemma_newest_selects(contents, range, best_i, best_xid, base, first@);
            }
            Ok((base, first))
        },
    }
}

/// Locate the newest valid container superblock stored in the checkpoint
/// descriptor area. Falls back to block zero when no newer valid checkpoint
/// superblock is present.
#[verifier::rlimit(40)]
#[verifier::spinoff_prover]
pub fn read_latest_container_superblock<D: BlockDevice>(device: &D, range: ByteRange) -> (r: RecoveryResult<ApfsContainer>)
    ensures
        r matches Ok(c) ==> newest_container(device.contents(), range, c),
        readable(device) && latest_readable(device.contents(), range) ==> r is Ok,
{
    match read_latest_container_superblock_with_block(device, range) {
        Ok((c, block)) => {
            proof {
                lemma_latest_witness(device.contents(), range, c, block@);
            }
            Ok(c)
        },
        Err(e) => Err(e),
    }
}

/// Whether `c` is the container a reader selects for the container in
/// `range` of `contents`: the one parsed from the superblock that
/// `latest_superblock` picks.
#[verifier::opaque]
pub open spec fn newest_container(contents: Seq<u8>, range: ByteRange, c: ApfsContainer) -> bool {
    exists|b: Seq<u8>| #[trigger] latest_superblock(contents, range, c, b)
}

/// A selected superblock witnesses that its container is the newest.
proof fn lemma_latest_witness(contents: Seq<u8>, range: ByteRange, c: ApfsContainer, b: Seq<u8>)
    requires
        latest_superblock(contents, range, c, b),
    ensures
        newest_container(contents, range, c),
{
    reveal(newest_container);
}

} // verus!
