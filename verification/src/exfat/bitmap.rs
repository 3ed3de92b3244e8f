//! exFAT allocation bitmap.
//!
//! The bitmap records which clusters are in use. For deleted-file recovery it
//! is evidence, not a guarantee: a free cluster may still have been overwritten
//! by data the filesystem has since discarded.

use std::collections::BTreeSet;
use vstd::prelude::*;
use crate::device::{read_exact, readable, BlockDevice};
use crate::exfat::boot::{ExfatVolume, FIRST_CLUSTER};
use crate::exfat::directory::{next_cluster, EXFAT_END_OF_CHAIN};
use crate::range::{io_error, ByteRange, RecoveryError, RecoveryResult};

verus! {

broadcast use vstd::laws_cmp::group_laws_cmp;

/// Refuses to buffer a bitmap larger than this, so a corrupted length cannot
/// drive an unbounded allocation.
pub const MAX_BITMAP_BYTES: u64 = 64 * 1024 * 1024;

/// Whether bit `k` (least significant first) of `b` is set.
pub open spec fn bit_set(b: u8, k: u8) -> bool {
    (b >> k) & 1u8 == 1u8
}

/// Executable form of [`bit_set`].
pub fn test_bit(b: u8, k: u8) -> (r: bool)
    requires
        k < 8,
    ensures
        r == bit_set(b, k),
{
    assert((b & (1u8 << k) != 0) == ((b >> k) & 1u8 == 1u8)) by (bit_vector)
        requires
            k < 8,
    ;
    b & (1u8 << k) != 0
}

/// Whether cluster index `index` is marked in `bits`.
pub open spec fn bitmap_bit(bits: Seq<u8>, index: int) -> bool {
    bit_set(bits[index / 8], (index % 8) as u8)
}

/// An in-memory copy of the volume's allocation bitmap.
#[derive(Clone, Debug)]
pub struct AllocationBitmap {
    bits: Vec<u8>,
    cluster_count: u32,
}

/// Whether `chain` is a run of linked heap clusters starting at `first`
/// (its last cluster need not end the chain).
pub open spec fn linked_run(v: ExfatVolume, contents: Seq<u8>, start: int, first: u32, chain: Seq<u32>) -> bool {
    &&& chain.len() > 0
    &&& chain[0] == first
    &&& forall|i: int| 0 <= i < chain.len() ==> FIRST_CLUSTER <= #[trigger] chain[i] < v.spec_cluster_limit()
    &&& forall|i: int|
        #![trigger chain[i]]
        0 <= i < chain.len() - 1 ==> v.spec_link(contents, start, chain[i]) == chain[i + 1]
    &&& chain.no_duplicates()
}

/// Whether `bytes` are the leading bytes of the clusters of `chain`, in order:
/// byte `i` is byte `i % size` of cluster `chain[i / size]`.
pub open spec fn bytes_of_run(v: ExfatVolume, contents: Seq<u8>, start: int, chain: Seq<u32>, bytes: Seq<u8>) -> bool {
    let size = v.bytes_per_sector * v.sectors_per_cluster;
    forall|i: int|
        0 <= i < bytes.len() ==> #[trigger] bytes[i] == contents[v.spec_cluster_offset(
            start,
            chain[i / size],
        ) + i % size]
}

/// Whether `run` is a run of linked clusters from `first` that covers
/// `length` bytes, each cluster inside the volume `range`, each FAT entry
/// but the last readable, and no end mark after its first cluster.
pub open spec fn bitmap_run(v: ExfatVolume, contents: Seq<u8>, range: ByteRange, first: u32, length: u64, run: Seq<u32>) -> bool {
    &&& linked_run(v, contents, range.offset as int, first, run)
    &&& run.len() * (v.bytes_per_sector * v.sectors_per_cluster) >= length
    &&& forall|i: int| 0 <= i < run.len() ==> #[trigger] v.cluster_in_range(range, run[i])
    &&& forall|i: int| 0 <= i < run.len() - 1 ==> #[trigger] v.link_readable(contents, range, run[i])
    &&& forall|i: int| 1 <= i < run.len() ==> #[trigger] run[i] != EXFAT_END_OF_CHAIN
}

/// Whether a bitmap of `length` bytes from `first` can be loaded: its
/// length suits the cluster count and the size cap, clusters have a size
/// that fits, the volume lies inside the source, and a run of clusters
/// covering the length can be followed.
pub open spec fn bitmap_loadable(v: ExfatVolume, contents: Seq<u8>, range: ByteRange, first: u32, length: u64) -> bool {
    &&& (v.cluster_count + 7) / 8 <= length <= MAX_BITMAP_BYTES
    &&& 0 < v.bytes_per_sector * v.sectors_per_cluster <= u64::MAX
    &&& range.spec_end() <= u64::MAX
    &&& range.spec_end() <= contents.len()
    &&& length > 0 ==> exists|run: Seq<u32>| #[trigger] bitmap_run(v, contents, range, first, length, run)
}

impl AllocationBitmap {
    /// The bitmap's bytes.
    pub closed spec fn bits_view(&self) -> Seq<u8> {
        self.bits@
    }

    /// The number of clusters the bitmap covers.
    pub closed spec fn clusters(&self) -> u32 {
        self.cluster_count
    }

    /// What [`AllocationBitmap::is_allocated`] answers for `cluster`.
    pub open spec fn spec_allocated(&self, cluster: u32) -> Option<bool> {
        if cluster < FIRST_CLUSTER || cluster - FIRST_CLUSTER >= self.clusters() || (cluster
            - FIRST_CLUSTER) / 8 >= self.bits_view().len() {
            None
        } else {
            Some(bitmap_bit(self.bits_view(), cluster - FIRST_CLUSTER))
        }
    }

    /// Clusters among the first `k` of the heap that are marked in use.
    pub open spec fn allocated_prefix(&self, k: int) -> int
        decreases k,
    {
        if k <= 0 {
            0
        } else {
            self.allocated_prefix(k - 1) + if self.spec_allocated((k - 1 + FIRST_CLUSTER) as u32)
                == Some(true) {
                1int
            } else {
                0int
            }
        }
    }

    /// The clusters among the first `k` of the heap that are marked in use.
    pub open spec fn allocated_clusters(&self, k: int) -> Set<int> {
        Set::new(
            |c: int|
                FIRST_CLUSTER <= c < FIRST_CLUSTER + k && self.spec_allocated(c as u32) == Some(true),
        )
    }

    /// The count of marked clusters among the first `k` is the size of the
    /// set of those clusters.
    pub proof fn lemma_allocated_clusters_counted(&self, k: int)
        requires
            0 <= k,
        ensures
            self.allocated_clusters(k).finite(),
            self.allocated_clusters(k).len() == self.allocated_prefix(k),
        decreases k,
    {
        if k == 0 {
            assert(self.allocated_clusters(0) =~= Set::<int>::empty());
        } else {
            self.lemma_allocated_clusters_counted(k - 1);
            let x = k - 1 + FIRST_CLUSTER;
            if self.spec_allocated(x as u32) == Some(true) {
                assert(self.allocated_clusters(k) =~= self.allocated_clusters(k - 1).insert(x));
            } else {
                assert(self.allocated_clusters(k) =~= self.allocated_clusters(k - 1));
            }
        }
    }

    /// A bitmap over `cluster_count` clusters with the given bytes.
    pub fn from_bits(bits: Vec<u8>, cluster_count: u32) -> (b: AllocationBitmap)
        ensures
            b.bits_view() == bits@,
            b.clusters() == cluster_count,
    {
        AllocationBitmap { bits, cluster_count }
    }

    /// Loads the bitmap from its cluster chain.
    ///
    /// `length_bytes` comes from the bitmap's directory entry and is validated
    /// against the volume's cluster count before allocating.
    pub fn load<D: BlockDevice>(
        device: &D,
        volume: &ExfatVolume,
        volume_range: ByteRange,
        first_cluster: u32,
        length_bytes: u64,
    ) -> (r: RecoveryResult<AllocationBitmap>)
        ensures
            r matches Ok(b) ==> {
                &&& b.clusters() == volume.cluster_count
                &&& b.bits_view().len() == length_bytes
                &&& length_bytes > 0 ==> exists|chain: Seq<u32>|
                    #![trigger linked_run(*volume, device.contents(), volume_range.offset as int, first_cluster, chain)]
                    linked_run(*volume, device.contents(), volume_range.offset as int, first_cluster, chain)
                        && chain.len() * (volume.bytes_per_sector * volume.sectors_per_cluster) >= length_bytes
                        && bytes_of_run(
                        *volume,
                        device.contents(),
                        volume_range.offset as int,
                        chain,
                        b.bits_view(),
                    )
            },
            length_bytes < (volume.cluster_count + 7) / 8 ==> r is Err,
            length_bytes > MAX_BITMAP_BYTES ==> r is Err,
            readable(device) && bitmap_loadable(*volume, device.contents(), volume_range, first_cluster, length_bytes)
                ==> r is Ok,
    {
        // One bit per cluster: the declared length must match the geometry.
        let required = (volume.cluster_count as u64 + 7) / 8;
        if length_bytes < required {
            return Err(io_error("allocation bitmap is shorter than the cluster count requires"));
        }
        if length_bytes > MAX_BITMAP_BYTES {
            return Err(io_error("allocation bitmap exceeds the supported size"));
        }
        let cluster_size = volume.cluster_size()?;
        if cluster_size == 0 {
            return Err(io_error("allocation bitmap cluster is empty"));
        }
        let volume_end = volume_range.end()?;
        let ghost contents = device.contents();
        let ghost start = volume_range.offset as int;
        let mut bits: Vec<u8> = Vec::new();
        let mut cluster = first_cluster;
        let mut visited: BTreeSet<u32> = BTreeSet::new();
        let ghost mut chain: Seq<u32> = Seq::empty();
        let ghost owed = readable(device) && bitmap_loadable(*volume, contents, volume_range, first_cluster, length_bytes);
        let ghost run: Seq<u32> = if owed && length_bytes > 0 {
            choose|run: Seq<u32>| #[trigger] bitmap_run(*volume, contents, volume_range, first_cluster, length_bytes, run)
        } else {
            Seq::empty()
        };
        while (bits.len() as u64) < length_bytes
            invariant_except_break
                chain.len() > 0 ==> volume.spec_link(contents, start, chain.last()) == cluster,
            invariant
                owed == (readable(device) && bitmap_loadable(*volume, contents, volume_range, first_cluster, length_bytes)),
                owed && length_bytes > 0 ==> bitmap_run(*volume, contents, volume_range, first_cluster, length_bytes, run),
                owed && length_bytes > 0 ==> chain.len() <= run.len() && chain == run.take(chain.len() as int),
                volume_end == volume_range.spec_end(),
                length_bytes <= MAX_BITMAP_BYTES,
                cluster_size == volume.bytes_per_sector * volume.sectors_per_cluster,
                cluster_size > 0,
                contents == device.contents(),
                start == volume_range.offset,
                bits@.len() <= length_bytes,
                chain.len() == 0 ==> cluster == first_cluster && bits@.len() == 0,
                chain.len() > 0 ==> linked_run(*volume, contents, start, first_cluster, chain),
                bytes_of_run(*volume, contents, start, chain, bits@),
                bits@.len() < length_bytes ==> bits@.len() == chain.len() * cluster_size,
                bits@.len() <= chain.len() * cluster_size,
                visited@ == chain.to_set(),
            ensures
                bits@.len() == length_bytes,
                bits@.len() <= chain.len() * cluster_size,
                length_bytes > 0 ==> chain.len() > 0 && linked_run(*volume, contents, start, first_cluster, chain),
                bytes_of_run(*volume, contents, start, chain, bits@),
            decreases length_bytes - bits@.len(),
        {
            proof {
                if owed {
                    let n = chain.len() as int;
                    let cs = cluster_size as int;
                    assert(n < run.len()) by (nonlinear_arith)
                        requires
                            n * cs < length_bytes,
                            run.len() * cs >= length_bytes,
                            cs > 0,
                    ;
                    if n > 0 {
                        assert(chain.last() == run[n - 1]);
                    }
                    assert(cluster == run[n]);
                    assert(volume.cluster_in_range(volume_range, run[n]));
                    assert(!chain.to_set().contains(cluster)) by {
                        if chain.to_set().contains(cluster) {
                            assert(chain.contains(cluster));
                            let j = choose|j: int| 0 <= j < chain.len() && chain[j] == cluster;
                            assert(run[j] == run[n]);
                        }
                    }
                }
            }
            if !volume.is_valid_cluster(cluster) {
                return Err(io_error("allocation bitmap chain leaves the cluster heap"));
            }
            // A cyclic bitmap chain must not spin forever.
            if !visited.insert(cluster) {
                return Err(io_error("allocation bitmap chain loops"));
            }
            let offset = volume.cluster_offset(volume_range.offset, cluster)?;
            let remaining = length_bytes - bits.len() as u64;
            let take = if remaining < cluster_size {
                remaining
            } else {
                cluster_size
            };
            let range = ByteRange::new(offset, take)?;
            if range.end()? > volume_end {
                return Err(io_error("allocation bitmap extends outside the volume"));
            }
            let chunk = read_exact(device, offset, take)?;
            let ghost before = bits@;
            let ghost old_chain = chain;
            let mut k: usize = 0;
            while k < chunk.len()
                invariant
                    k <= chunk@.len(),
                    bits@ == before + chunk@.take(k as int),
                decreases chunk@.len() - k,
            {
                bits.push(chunk[k]);
                assert(chunk@.take(k + 1) == chunk@.take(k as int).push(chunk@[k as int]));
                k = k + 1;
            }
            proof {
                assert(chunk@.take(k as int) == chunk@);
                chain = old_chain.push(cluster);
                let m = old_chain.len() as int;
                let cs = cluster_size as int;
                assert forall|i: int| 0 <= i < bits@.len() implies #[trigger] bits@[i] == contents[
                    volume.spec_cluster_offset(start, chain[i / cs]) + i % cs] by {
                    if i < before.len() {
                        assert(bits@[i] == before[i]);
                        assert(i / cs < m) by (nonlinear_arith)
                            requires
                                0 <= i < before.len(),
                                before.len() == m * cs,
                                cs > 0,
                        ;
                        assert(chain[i / cs] == old_chain[i / cs]);
                    } else {
                        let j = i - before.len();
                        assert(bits@[i] == chunk@[j]);
                        assert(i / cs == m && i % cs == j) by (nonlinear_arith)
                            requires
                                i == m * cs + j,
                                0 <= j < cs,
                                cs > 0,
                        ;
                    }
                }
                assert(chain.to_set() == old_chain.to_set().insert(cluster)) by {
                    assert forall|x: u32| chain.to_set().contains(x) <==> old_chain.to_set().insert(
                        cluster,
                    ).contains(x) by {
                        if old_chain.to_set().contains(x) && x != cluster {
                            let j = choose|j: int| 0 <= j < old_chain.len() && old_chain[j] == x;
                            assert(chain[j] == x);
                        }
                        if x == cluster {
                            assert(chain[chain.len() - 1] == x);
                        }
                    }
                    assert(chain.to_set() =~= old_chain.to_set().insert(cluster));
                }
                assert forall|a: int, b: int| 0 <= a < b < chain.len() implies chain[a]
                    != chain[b] by {
                    if b == chain.len() - 1 {
                        assert(old_chain.to_set().contains(old_chain[a]));
                    }
                }
                assert forall|i: int| #![trigger chain[i]] 0 <= i < chain.len() - 1 implies volume.spec_link(
                    contents,
                    start,
                    chain[i],
                ) == chain[i + 1] by {
                    if i < old_chain.len() - 1 {
                        assert(chain[i] == old_chain[i] && chain[i + 1] == old_chain[i + 1]);
                    }
                }
                assert(bits@.len() <= chain.len() * cluster_size) by (nonlinear_arith)
                    requires
                        bits@.len() == before.len() + take,
                        take <= cluster_size,
                        before.len() == m * cluster_size,
                        chain.len() == m + 1,
                ;
                if bits@.len() < length_bytes {
                    assert(take == cluster_size);
                    assert(bits@.len() == chain.len() * cluster_size) by (nonlinear_arith)
                        requires
                            bits@.len() == before.len() + cluster_size,
                            before.len() == m * cluster_size,
                            chain.len() == m + 1,
                    ;
                }
            }
            proof {
                if owed {
                    assert(chain == run.take(chain.len() as int));
                }
            }
            if (bits.len() as u64) >= length_bytes {
                break;
            }
            proof {
                if owed {
                    let n = chain.len() as int;
                    let cs = cluster_size as int;
                    assert(n < run.len()) by (nonlinear_arith)
                        requires
                            n * cs < length_bytes,
                            run.len() * cs >= length_bytes,
                            cs > 0,
                    ;
                    assert(cluster == run[n - 1]);
                    assert(volume.link_readable(contents, volume_range, run[n - 1]));
                    assert(volume.spec_link(contents, start, run[n - 1]) == run[n]);
                    assert(run[n] != EXFAT_END_OF_CHAIN);
                }
            }
            match next_cluster(device, volume, volume_range, cluster)? {
                Some(next) => {
                    cluster = next;
                },
                None => {
                    return Err(io_error("allocation bitmap chain ended early"));
                },
            }
        }
        Ok(AllocationBitmap { bits, cluster_count: volume.cluster_count })
    }

    /// Whether `cluster` is marked in use.
    ///
    /// Returns `None` when the cluster lies outside the heap, so callers must
    /// distinguish "free" from "not a real cluster".
    pub fn is_allocated(&self, cluster: u32) -> (r: Option<bool>)
        ensures
            r == self.spec_allocated(cluster),
    {
        if cluster < FIRST_CLUSTER {
            return None;
        }
        let index = cluster - FIRST_CLUSTER;
        if index >= self.cluster_count {
            return None;
        }
        let byte = (index / 8) as usize;
        if byte >= self.bits.len() {
            return None;
        }
        // exFAT stores cluster N in bit N%8, least significant bit first.
        Some(test_bit(self.bits[byte], (index % 8) as u8))
    }

    /// Number of clusters the bitmap reports as in use.
    pub fn allocated_count(&self) -> (r: u64)
        ensures
            r == self.allocated_prefix(self.clusters() as int),
            r == self.allocated_clusters(self.clusters() as int).len(),
            r <= self.clusters(),
    {
        proof {
            self.lemma_allocated_clusters_counted(self.clusters() as int);
        }
        let mut count: u64 = 0;
        let mut c: u32 = 0;
        while c < self.cluster_count
            invariant
                c <= self.clusters(),
                count == self.allocated_prefix(c as int),
                count <= c,
            decreases self.clusters() - c,
        {
            assert(c + FIRST_CLUSTER <= u32::MAX + 2);
            if c <= u32::MAX - FIRST_CLUSTER {
                if self.is_allocated(c + FIRST_CLUSTER) == Some(true) {
                    count = count + 1;
                }
            } else {
                assert(self.spec_allocated((c + FIRST_CLUSTER) as u32) != Some(true)) by {
                    assert(((c + FIRST_CLUSTER) as u32) < FIRST_CLUSTER) by (bit_vector)
                        requires
                            c > u32::MAX - FIRST_CLUSTER,
                            FIRST_CLUSTER == 2u32,
                    ;
                }
            }
            c = c + 1;
        }
        count
    }
}

} // verus!
