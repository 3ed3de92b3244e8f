//! The allocation bitmap as described by its root-directory entry.

use vstd::prelude::*;
use crate::bytes::{le_u32, le_u64, spec_le_u32, spec_le_u64};
use crate::exfat::bitmap::{bit_set, test_bit};
use crate::device::{read_exact, readable, BlockDevice};
use crate::exfat::boot::ExfatVolume;
use crate::exfat::deleted::cluster_range_in;
use crate::exfat::directory::{cluster_chain, EXFAT_END_OF_CHAIN};
use crate::range::{io_error, ByteRange, RecoveryError, RecoveryResult};

verus! {

/// The entry type of an allocation-bitmap directory entry.
pub const ENTRY_ALLOCATION_BITMAP: u8 = 0x81;

/// An allocation bitmap checked against its directory entry.
#[derive(Clone, Debug, PartialEq, Eq)]
pub struct AllocationBitmap {
    bytes: Vec<u8>,
    cluster_count: u32,
}

/// Whether a bitmap directory entry and its bytes describe `cluster_count`
/// clusters.
pub open spec fn bitmap_entry_valid(entry: Seq<u8>, bytes_len: int, cluster_count: u32) -> bool {
    let first_cluster = spec_le_u32(entry, 20);
    let data_length = spec_le_u64(entry, 24);
    let required = (cluster_count + 7) / 8;
    &&& entry[0] == ENTRY_ALLOCATION_BITMAP
    &&& entry[1] & 0xFE == 0
    &&& data_length >= required && bytes_len >= required
    &&& 2 <= first_cluster && first_cluster < cluster_count + 2
}

impl AllocationBitmap {
    /// The bitmap's bytes.
    pub closed spec fn bytes_view(&self) -> Seq<u8> {
        self.bytes@
    }

    /// The number of clusters covered.
    pub closed spec fn clusters(&self) -> u32 {
        self.cluster_count
    }

    /// Checks a bitmap directory entry against the bitmap's bytes.
    pub fn parse(entry: &[u8], bytes: Vec<u8>, cluster_count: u32) -> (r: RecoveryResult<AllocationBitmap>)
        requires
            entry@.len() == 32,
        ensures
            r is Ok <==> bitmap_entry_valid(entry@, bytes@.len() as int, cluster_count),
            r matches Ok(b) ==> b.bytes_view() == bytes@ && b.clusters() == cluster_count,
    {
        if entry[0] != ENTRY_ALLOCATION_BITMAP {
            return Err(io_error("not an exFAT allocation bitmap entry"));
        }
        if entry[1] & 0xFE != 0 {
            return Err(io_error("invalid exFAT allocation bitmap flags"));
        }
        let first_cluster = le_u32(entry, 20);
        let data_length = le_u64(entry, 24);
        let required = (cluster_count as u64 + 7) / 8;
        if data_length < required || (bytes.len() as u64) < required {
            return Err(io_error("exFAT allocation bitmap is shorter than cluster count"));
        }
        if first_cluster < 2 || first_cluster as u64 >= cluster_count as u64 + 2 {
            return Err(io_error("exFAT allocation bitmap has invalid first cluster"));
        }
        Ok(AllocationBitmap { bytes, cluster_count })
    }

    /// Whether `cluster` is marked in use; clusters outside the heap are an
    /// error.
    pub fn is_allocated(&self, cluster: u32) -> (r: RecoveryResult<bool>)
        ensures
            !(2 <= cluster < self.clusters() + 2) ==> (r matches Err(e) && e == (
            RecoveryError::OutOfRange {
                offset: cluster as u64,
                length: 1,
                capacity: (self.clusters() + 2) as u64,
            })),
            2 <= cluster < self.clusters() + 2 && (cluster - 2) / 8 >= self.bytes_view().len()
                ==> (r matches Err(e) && e is IoFailure),
            r matches Ok(b) ==> 2 <= cluster < self.clusters() + 2 && (cluster - 2) / 8
                < self.bytes_view().len() && b == bit_set(
                self.bytes_view()[(cluster - 2) / 8],
                ((cluster - 2) % 8) as u8,
            ),
            2 <= cluster < self.clusters() + 2 && (cluster - 2) / 8 < self.bytes_view().len()
                ==> r is Ok,
    {
        if cluster < 2 || cluster as u64 >= self.cluster_count as u64 + 2 {
            return Err(
                RecoveryError::OutOfRange {
                    offset: cluster as u64,
                    length: 1,
                    capacity: self.cluster_count as u64 + 2,
                },
            );
        }
        let index = (cluster - 2) as usize;
        if index / 8 >= self.bytes.len() {
            return Err(io_error("allocation bitmap is truncated"));
        }
        Ok(test_bit(self.bytes[index / 8], (index % 8) as u8))
    }
}

/// The bytes of `clusters` of a volume starting at `base`, one cluster after
/// another.
pub open spec fn cluster_data(volume: ExfatVolume, contents: Seq<u8>, base: int, clusters: Seq<u32>) -> Seq<u8>
    decreases clusters.len(),
{
    if clusters.len() == 0 {
        Seq::empty()
    } else {
        let off = volume.spec_cluster_offset(base, clusters.last());
        let cs = volume.bytes_per_sector * volume.sectors_per_cluster;
        cluster_data(volume, contents, base, clusters.drop_last()) + contents.subrange(off, off + cs)
    }
}

/// Each in-range cluster holds a full cluster of bytes.
proof fn lemma_cluster_data_len(volume: ExfatVolume, contents: Seq<u8>, range: ByteRange, clusters: Seq<u32>)
    requires
        forall|i: int| 0 <= i < clusters.len() ==> #[trigger] volume.cluster_in_range(range, clusters[i]),
        range.spec_end() <= contents.len(),
    ensures
        cluster_data(volume, contents, range.offset as int, clusters).len() == clusters.len() * (volume.bytes_per_sector
            * volume.sectors_per_cluster),
    decreases clusters.len(),
{
    if clusters.len() > 0 {
        let d = clusters.drop_last();
        assert forall|i: int| 0 <= i < d.len() implies #[trigger] volume.cluster_in_range(range, d[i]) by {
            assert(d[i] == clusters[i]);
        }
        lemma_cluster_data_len(volume, contents, range, d);
        assert(volume.cluster_in_range(range, clusters[clusters.len() - 1]));
        let cs = volume.bytes_per_sector * volume.sectors_per_cluster;
        assert(d.len() * cs + cs == clusters.len() * cs) by (nonlinear_arith)
            requires
                d.len() + 1 == clusters.len(),
        ;
    }
}

/// Reads the first `length` bytes held by `clusters`, in order; fails
/// when they hold fewer.
pub fn read_clusters<D: BlockDevice>(
    volume: &ExfatVolume,
    device: &D,
    volume_range: ByteRange,
    clusters: &Vec<u32>,
    length: u64,
) -> (r: RecoveryResult<Vec<u8>>)
    ensures
        r matches Ok(bytes) ==> {
            &&& bytes@.len() == length
            &&& exists|m: int|
                0 <= m <= clusters@.len() && length <= cluster_data(
                    *volume,
                    device.contents(),
                    volume_range.offset as int,
                    clusters@.take(m),
                ).len() && bytes@ == #[trigger] cluster_data(
                    *volume,
                    device.contents(),
                    volume_range.offset as int,
                    clusters@.take(m),
                ).take(length as int)
        },
        readable(device) && volume_range.spec_end() <= device.contents().len() && length <= usize::MAX && clusters@.len()
            * (volume.bytes_per_sector * volume.sectors_per_cluster) >= length && (forall|i: int|
            0 <= i < clusters@.len() ==> #[trigger] volume.cluster_in_range(volume_range, clusters@[i])) ==> r is Ok,
{
    let ghost owed = readable(device) && volume_range.spec_end() <= device.contents().len() && length <= usize::MAX
        && clusters@.len() * (volume.bytes_per_sector * volume.sectors_per_cluster) >= length && forall|i: int|
        0 <= i < clusters@.len() ==> #[trigger] volume.cluster_in_range(volume_range, clusters@[i]);
    if length > usize::MAX as u64 {
        return Err(RecoveryError::LengthTooLarge { length });
    }
    let wanted = length as usize;
    let mut out: Vec<u8> = Vec::new();
    let mut i: usize = 0;
    while i < clusters.len() && out.len() < wanted
        invariant
            i <= clusters@.len(),
            out@.len() <= wanted,
            wanted == length,
            out@ == cluster_data(*volume, device.contents(), volume_range.offset as int, clusters@.take(i as int)).take(
                out@.len() as int,
            ),
            out@.len() == wanted || out@.len() == cluster_data(
                *volume,
                device.contents(),
                volume_range.offset as int,
                clusters@.take(i as int),
            ).len(),
            out@.len() <= cluster_data(*volume, device.contents(), volume_range.offset as int, clusters@.take(i as int)).len(),
            owed == (readable(device) && volume_range.spec_end() <= device.contents().len() && length <= usize::MAX
                && clusters@.len() * (volume.bytes_per_sector * volume.sectors_per_cluster) >= length && forall|i: int|
                0 <= i < clusters@.len() ==> #[trigger] volume.cluster_in_range(volume_range, clusters@[i])),
        decreases clusters@.len() - i,
    {
        proof {
            if owed {
                assert(volume.cluster_in_range(volume_range, clusters@[i as int]));
            }
        }
        let range = cluster_range_in(volume, volume_range, clusters[i])?;
        let buf = read_exact(device, range.offset, range.length)?;
        let ghost before = cluster_data(*volume, device.contents(), volume_range.offset as int, clusters@.take(i as int));
        proof {
            assert(clusters@.take(i + 1).drop_last() == clusters@.take(i as int));
            assert(clusters@.take(i + 1).last() == clusters@[i as int]);
            assert(out@ == before);
        }
        let remaining = wanted - out.len();
        let take = if buf.len() < remaining {
            buf.len()
        } else {
            remaining
        };
        let mut k: usize = 0;
        while k < take
            invariant
                k <= take <= buf@.len(),
                out@.len() + take - k <= wanted,
                out@ == before + buf@.take(k as int),
            decreases take - k,
        {
            out.push(buf[k]);
            assert(buf@.take(k + 1) == buf@.take(k as int).push(buf@[k as int]));
            k = k + 1;
        }
        proof {
            let after = cluster_data(*volume, device.contents(), volume_range.offset as int, clusters@.take(i + 1));
            assert(after == before + buf@);
            assert(out@ =~= after.take(out@.len() as int));
        }
        i = i + 1;
    }
    proof {
        if owed && out@.len() != wanted {
            assert(clusters@.take(i as int) == clusters@);
            lemma_cluster_data_len(*volume, device.contents(), volume_range, clusters@);
        }
    }
    if out.len() != wanted {
        return Err(io_error("exFAT cluster chain is shorter than declared data length"));
    }
    Ok(out)
}

/// Whether `bytes` are the first `length` bytes held by some prefix of the
/// cluster chain that starts at `start`.
pub open spec fn chain_bytes(
    volume: ExfatVolume,
    contents: Seq<u8>,
    base: int,
    start: int,
    length: int,
    bytes: Seq<u8>,
) -> bool {
    exists|chain: Seq<u32>, m: int|
        #![trigger volume.is_chain(contents, base, chain), cluster_data(volume, contents, base, chain.take(m))]
        volume.is_chain(contents, base, chain) && chain[0] == start && 0 <= m <= chain.len() && bytes
            == cluster_data(volume, contents, base, chain.take(m)).take(length)
}

/// Whether the 32-byte entry at `p` of a directory is its first allocation
/// bitmap entry, with no end-of-directory marker before it.
pub open spec fn first_bitmap_entry(dir: Seq<u8>, p: int) -> bool {
    &&& 0 <= p && p % 32 == 0 && p + 32 <= dir.len()
    &&& dir[p] == ENTRY_ALLOCATION_BITMAP
    &&& forall|q: int| 0 <= q < p && q % 32 == 0 ==> #[trigger] dir[q] != 0 && dir[q] != ENTRY_ALLOCATION_BITMAP
}

/// Whether `bytes` is the allocation bitmap that the first bitmap entry of
/// the root directory `root` names, the entry checked against the volume.
pub open spec fn bitmap_from_root(
    volume: ExfatVolume,
    contents: Seq<u8>,
    base: int,
    root: Seq<u8>,
    bytes: Seq<u8>,
) -> bool {
    exists|p: int|
        #![trigger first_bitmap_entry(root, p)]
        first_bitmap_entry(root, p) && bitmap_entry_valid(root.subrange(p, p + 32), bytes.len() as int, volume.cluster_count)
            && chain_bytes(
            volume,
            contents,
            base,
            spec_le_u32(root.subrange(p, p + 32), 20),
            spec_le_u64(root.subrange(p, p + 32), 24) as int,
            bytes,
        )
}

/// Whether `w` is the chain from `start` that a walk follows in full: one it
/// can walk, with no end mark after its first cluster, each cluster inside
/// the volume `range`.
pub open spec fn followable(volume: ExfatVolume, contents: Seq<u8>, range: ByteRange, start: u32, w: Seq<u32>) -> bool {
    &&& volume.walkable_chain(contents, range, start, w)
    &&& forall|k: int| 1 <= k < w.len() ==> #[trigger] w[k] != EXFAT_END_OF_CHAIN
    &&& forall|k: int| 0 <= k < w.len() ==> #[trigger] volume.cluster_in_range(range, w[k])
}

/// Whether the entry at `p` of the root directory `root` is its first
/// bitmap entry, valid for the volume, with a length that fits in memory
/// and a chain that can be followed far enough to hold it.
pub open spec fn bitmap_entry_readable(volume: ExfatVolume, contents: Seq<u8>, range: ByteRange, root: Seq<u8>, p: int) -> bool {
    let e = root.subrange(p, p + 32);
    let length = spec_le_u64(e, 24);
    &&& first_bitmap_entry(root, p)
    &&& length <= usize::MAX
    &&& bitmap_entry_valid(e, length as int, volume.cluster_count)
    &&& exists|b: Seq<u32>|
        #[trigger] followable(volume, contents, range, spec_le_u32(e, 20) as u32, b) && b.len() * (volume.bytes_per_sector
            * volume.sectors_per_cluster) >= length
}

/// Whether the allocation bitmap can be located and read: clusters have a
/// size that fits, the volume lies inside the source, the root directory's
/// chain can be followed and its bytes fit in memory, and it holds a first
/// bitmap entry that can be read.
pub open spec fn bitmap_readable(volume: ExfatVolume, contents: Seq<u8>, range: ByteRange) -> bool {
    let cs = volume.bytes_per_sector * volume.sectors_per_cluster;
    &&& 0 < cs <= u64::MAX
    &&& range.spec_end() <= contents.len()
    &&& exists|w: Seq<u32>|
        #[trigger] followable(volume, contents, range, volume.root_directory_cluster, w) && w.len() * cs <= u64::MAX
            && w.len() * cs <= usize::MAX && exists|p: int|
            #[trigger] bitmap_entry_readable(volume, contents, range, cluster_data(volume, contents, range.offset as int, w), p)
}

/// Bytes read from a whole chain, as long as the chain, are its data.
proof fn lemma_whole_chain_bytes(volume: ExfatVolume, contents: Seq<u8>, range: ByteRange, w: Seq<u32>, bytes: Seq<u8>)
    requires
        forall|k: int| 0 <= k < w.len() ==> #[trigger] volume.cluster_in_range(range, w[k]),
        range.spec_end() <= contents.len(),
        volume.bytes_per_sector * volume.sectors_per_cluster > 0,
        bytes.len() == w.len() * (volume.bytes_per_sector * volume.sectors_per_cluster),
        exists|m: int|
            0 <= m <= w.len() && bytes.len() <= cluster_data(volume, contents, range.offset as int, w.take(m)).len() && bytes
                == #[trigger] cluster_data(volume, contents, range.offset as int, w.take(m)).take(bytes.len() as int),
    ensures
        bytes == cluster_data(volume, contents, range.offset as int, w),
{
    let m = choose|m: int|
        0 <= m <= w.len() && bytes.len() <= cluster_data(volume, contents, range.offset as int, w.take(m)).len() && bytes
            == #[trigger] cluster_data(volume, contents, range.offset as int, w.take(m)).take(bytes.len() as int);
    let t = w.take(m);
    assert forall|k: int| 0 <= k < t.len() implies #[trigger] volume.cluster_in_range(range, t[k]) by {
        assert(t[k] == w[k]);
    }
    lemma_cluster_data_len(volume, contents, range, t);
    let cs = volume.bytes_per_sector * volume.sectors_per_cluster;
    assert(m >= w.len()) by (nonlinear_arith)
        requires
            w.len() * cs <= m * cs,
            cs > 0,
    ;
    assert(t == w);
    assert(cluster_data(volume, contents, range.offset as int, w).take(bytes.len() as int) == cluster_data(
        volume,
        contents,
        range.offset as int,
        w,
    ));
}

/// Locates the allocation bitmap through its root-directory entry and reads
/// it, checked against the volume's cluster count.
pub fn read_allocation_bitmap<D: BlockDevice>(volume: &ExfatVolume, device: &D, volume_range: ByteRange) -> (r:
    RecoveryResult<AllocationBitmap>)
    ensures
        r matches Ok(b) ==> b.clusters() == volume.cluster_count && exists|root: Seq<u8>|
            #[trigger] chain_bytes(
                *volume,
                device.contents(),
                volume_range.offset as int,
                volume.root_directory_cluster as int,
                root.len() as int,
                root,
            ) && bitmap_from_root(*volume, device.contents(), volume_range.offset as int, root, b.bytes_view()),
        readable(device) && bitmap_readable(*volume, device.contents(), volume_range) ==> r is Ok,
{
    let ghost contents = device.contents();
    let ghost owed = readable(device) && bitmap_readable(*volume, contents, volume_range);
    let ghost w: Seq<u32> = if owed {
        choose|w: Seq<u32>|
            #[trigger] followable(*volume, contents, volume_range, volume.root_directory_cluster, w) && w.len() * (
            volume.bytes_per_sector * volume.sectors_per_cluster) <= u64::MAX && w.len() * (volume.bytes_per_sector
                * volume.sectors_per_cluster) <= usize::MAX && exists|p: int|
                #[trigger] bitmap_entry_readable(
                *volume,
                contents,
                volume_range,
                cluster_data(*volume, contents, volume_range.offset as int, w),
                p,
            )
    } else {
        Seq::empty()
    };
    let root_chain = cluster_chain(device, volume, volume_range, volume.root_directory_cluster)?;
    proof {
        if owed {
            volume.lemma_chain_full(contents, volume_range, volume.root_directory_cluster, root_chain@, w);
        }
    }
    let cs = volume.cluster_size()?;
    let root_len = match (root_chain.len() as u64).checked_mul(cs) {
        Some(v) => v,
        None => return Err(RecoveryError::RangeOverflow),
    };
    let root = read_clusters(volume, device, volume_range, &root_chain, root_len)?;
    let ghost base = volume_range.offset as int;
    let ghost pstar: int = if owed {
        lemma_whole_chain_bytes(*volume, contents, volume_range, w, root@);
        choose|p: int| #[trigger] bitmap_entry_readable(*volume, contents, volume_range, root@, p)
    } else {
        0
    };
    assert(chain_bytes(*volume, device.contents(), base, volume.root_directory_cluster as int, root@.len() as int, root@));
    let mut p: usize = 0;
    while p <= root.len() && root.len() - p >= 32
        invariant
            p <= root@.len(),
            p % 32 == 0,
            forall|q: int| 0 <= q < p && q % 32 == 0 ==> #[trigger] root@[q] != 0 && root@[q] != ENTRY_ALLOCATION_BITMAP,
            base == volume_range.offset as int,
            chain_bytes(*volume, device.contents(), base, volume.root_directory_cluster as int, root@.len() as int, root@),
            contents == device.contents(),
            owed == (readable(device) && bitmap_readable(*volume, contents, volume_range)),
            owed ==> bitmap_entry_readable(*volume, contents, volume_range, root@, pstar) && p <= pstar,
        decreases root@.len() - p,
    {
        if root[p] == 0 {
            return Err(io_error("exFAT root directory has no allocation bitmap entry"));
        }
        if root[p] == ENTRY_ALLOCATION_BITMAP {
            let entry = crate::bytes::copy_range(root.as_slice(), p, p + 32);
            let first_cluster = le_u32(entry.as_slice(), 20);
            let data_length = le_u64(entry.as_slice(), 24);
            let ghost b: Seq<u32> = if owed {
                assert(p == pstar);
                assert(entry@ == root@.subrange(p as int, p + 32));
                choose|b: Seq<u32>|
                    #[trigger] followable(*volume, contents, volume_range, first_cluster, b) && b.len() * (
                    volume.bytes_per_sector * volume.sectors_per_cluster) >= data_length
            } else {
                Seq::empty()
            };
            let chain = cluster_chain(device, volume, volume_range, first_cluster)?;
            proof {
                if owed {
                    volume.lemma_chain_full(contents, volume_range, first_cluster, chain@, b);
                }
            }
            let bytes = read_clusters(volume, device, volume_range, &chain, data_length)?;
            let ghost found = bytes@;
            proof {
                let m = choose|m: int|
                    0 <= m <= chain@.len() && found == #[trigger] cluster_data(
                        *volume,
                        device.contents(),
                        base,
                        chain@.take(m),
                    ).take(data_length as int);
                assert(volume.is_chain(device.contents(), base, chain@));
            }
            assert(entry@ == root@.subrange(p as int, p + 32));
            assert(first_bitmap_entry(root@, p as int));
            assert(chain_bytes(*volume, device.contents(), base, first_cluster as int, data_length as int, found));
            let parsed = AllocationBitmap::parse(entry.as_slice(), bytes, volume.cluster_count);
            assert(parsed matches Ok(b) ==> bitmap_from_root(*volume, device.contents(), base, root@, b.bytes_view()));
            return parsed;
        }
        p = p + 32;
    }
    Err(io_error("exFAT root directory has no allocation bitmap entry"))
}

} // verus!
