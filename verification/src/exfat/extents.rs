//! Stream extents and recovery candidates for exFAT.
//!
//! exFAT describes allocation two ways. When the stream's NoFatChain flag is
//! set the run is contiguous and the FAT holds nothing for it, so extents come
//! from geometry. Otherwise the FAT chain is followed, with the same loop and
//! bounds protection used elsewhere.

use std::collections::BTreeSet;
use vstd::prelude::*;
use crate::device::{readable, BlockDevice};
use crate::exfat::bitmap::AllocationBitmap;
use crate::exfat::boot::{ExfatVolume, FIRST_CLUSTER};
use crate::exfat::directory::{cluster_chain, next_cluster, DirectoryEntry, ATTR_DIRECTORY, EXFAT_END_OF_CHAIN};
use crate::range::{
    io_error, logical_ends_fit, logically_ordered, sum_lengths, total_length,
    validate_logical_layout, ByteRange, Extent, RecoveryError, RecoveryResult,
};
use crate::text::string_of;

verus! {

broadcast use vstd::laws_cmp::group_laws_cmp;

/// How much of a stream the extents are believed to represent.
#[derive(Clone, Copy, Debug, PartialEq, Eq)]
pub enum ExtentState {
    Recoverable,
    PartiallyRecoverable,
    MetadataOnly,
}

/// Evidence class, mirroring the confidence specification. Derived from
/// evidence, never asserted.
#[derive(Clone, Copy, Debug, PartialEq, Eq)]
pub enum Confidence {
    High,
    Medium,
    Low,
    Unknown,
}

/// Extents for one stream, with the evidence behind them.
#[derive(Clone, Debug, PartialEq, Eq)]
pub struct StreamExtents {
    pub extents: Vec<Extent>,
    pub state: ExtentState,
    /// Length recorded in the stream entry. Untrusted.
    pub declared_size: u64,
    pub recovered_size: u64,
    pub diagnostics: Vec<String>,
}

/// The source byte that logical byte `x` of a file comes from, searching the
/// extents from the last; -1 where none holds it.
pub open spec fn source_of(extents: Seq<Extent>, x: int) -> int
    decreases extents.len(),
{
    if extents.len() == 0 {
        -1
    } else {
        let e = extents.last();
        if e.logical_offset <= x < e.logical_end() {
            e.source_range.offset + (x - e.logical_offset)
        } else {
            source_of(extents.drop_last(), x)
        }
    }
}

/// Whether `extents` cover the logical bytes `[0, total)` one after another,
/// without gaps, each extent non-empty.
pub open spec fn tiles(extents: Seq<Extent>, total: int) -> bool {
    &&& (extents.len() == 0 <==> total == 0)
    &&& extents.len() > 0 ==> extents[0].logical_offset == 0
    &&& forall|i: int|
        #![trigger extents[i]]
        0 < i < extents.len() ==> extents[i].logical_offset == extents[i - 1].logical_end()
    &&& extents.len() > 0 ==> extents.last().logical_end() == total
    &&& forall|i: int| #![trigger extents[i]] 0 <= i < extents.len() ==> extents[i].source_range.length > 0
}

/// Whether logical byte `x` of the file comes from byte `x % size` of
/// cluster `clusters[x / size]`, for every `x < total`.
pub open spec fn maps_clusters(
    v: ExfatVolume,
    start: int,
    clusters: Seq<u32>,
    extents: Seq<Extent>,
    total: int,
) -> bool {
    let size = v.bytes_per_sector * v.sectors_per_cluster;
    forall|x: int|
        0 <= x < total ==> #[trigger] source_of(extents, x) == v.spec_cluster_offset(
            start,
            clusters[x / size],
        ) + x % size
}

/// How many leading clusters from `j` on contribute content: clusters are
/// used until the declared size is covered or one would reach past the
/// volume's end `vend`.
pub open spec fn usable_clusters(
    v: ExfatVolume,
    start: int,
    vend: int,
    clusters: Seq<u32>,
    declared: int,
    j: int,
) -> int
    decreases clusters.len() - j,
{
    let size = v.bytes_per_sector * v.sectors_per_cluster;
    if j < 0 || j >= clusters.len() || j * size >= declared {
        j
    } else {
        let length = if declared - j * size < size {
            declared - j * size
        } else {
            size
        };
        if v.spec_cluster_offset(start, clusters[j]) + length > vend {
            j
        } else {
            usable_clusters(v, start, vend, clusters, declared, j + 1)
        }
    }
}

/// The smaller of two integers.
pub open spec fn min_int(a: int, b: int) -> int {
    if a < b {
        a
    } else {
        b
    }
}

/// Whether `extents` and `recovered` describe the first `declared` bytes of
/// a stream stored in `clusters`, as far as usable clusters reach.
pub open spec fn extents_of_clusters(
    v: ExfatVolume,
    volume_range: ByteRange,
    clusters: Seq<u32>,
    declared: int,
    extents: Seq<Extent>,
    recovered: int,
) -> bool {
    let size = v.bytes_per_sector * v.sectors_per_cluster;
    let used = usable_clusters(
        v,
        volume_range.offset as int,
        volume_range.spec_end(),
        clusters,
        declared,
        0,
    );
    &&& recovered == min_int(declared, used * size)
    &&& tiles(extents, recovered)
    &&& sum_lengths(extents) == recovered
    &&& maps_clusters(v, volume_range.offset as int, clusters, extents, recovered)
    &&& forall|i: int|
        #![trigger extents[i]]
        0 <= i < extents.len() ==> extents[i].source_range.spec_end() <= volume_range.spec_end()
}

/// Pushing an extent that starts beyond `x` leaves `x`'s source unchanged.
pub proof fn lemma_source_of_push(s: Seq<Extent>, e: Extent, x: int)
    requires
        x < e.logical_offset,
    ensures
        source_of(s.push(e), x) == source_of(s, x),
{
    assert(s.push(e).drop_last() == s);
}

/// Growing the last extent leaves the sources of the bytes it held, and of
/// those before it, unchanged.
pub proof fn lemma_source_of_grow(s: Seq<Extent>, e: Extent, x: int)
    requires
        s.len() > 0,
        e.logical_offset == s.last().logical_offset,
        e.source_range.offset == s.last().source_range.offset,
        e.source_range.length >= s.last().source_range.length,
        x < s.last().logical_end(),
    ensures
        source_of(s.drop_last().push(e), x) == source_of(s, x),
{
    assert(s.drop_last().push(e).drop_last() == s.drop_last());
}

/// In extents that tile a file, each ends no later than the file.
proof fn lemma_tiles_end(s: Seq<Extent>, total: int, i: int)
    requires
        tiles(s, total),
        0 <= i < s.len(),
    ensures
        s[i].logical_end() <= total,
    decreases s.len() - i,
{
    if i + 1 < s.len() {
        lemma_tiles_end(s, total, i + 1);
        assert(s[i + 1].logical_offset == s[i].logical_end());
    }
}

/// Converts clusters into logically ordered extents, trimming the final
/// cluster to the declared size and coalescing adjacent runs.
#[verifier::spinoff_prover]
#[verifier::rlimit(40)]
pub fn build_extents(
    volume: &ExfatVolume,
    volume_range: ByteRange,
    clusters: &[u32],
    declared_size: u64,
    diagnostics: &mut Vec<String>,
) -> (r: RecoveryResult<(Vec<Extent>, u64)>)
    requires
        volume.bytes_per_sector * volume.sectors_per_cluster > 0,
        forall|i: int|
            0 <= i < clusters@.len() ==> FIRST_CLUSTER <= #[trigger] clusters@[i]
                < volume.spec_cluster_limit(),
    ensures
        final(diagnostics)@.len() >= old(diagnostics)@.len(),
        final(diagnostics)@.take(old(diagnostics)@.len() as int) == old(diagnostics)@,
        r matches Ok((extents, recovered)) ==> extents_of_clusters(
            *volume,
            volume_range,
            clusters@,
            declared_size as int,
            extents@,
            recovered as int,
        ) && logically_ordered(extents@) && logical_ends_fit(extents@),
        volume_range.spec_end() <= u64::MAX && volume.bytes_per_sector * volume.sectors_per_cluster <= u64::MAX && (forall|
            i: int,
        | 0 <= i < clusters@.len() ==> #[trigger] volume.cluster_in_range(volume_range, clusters@[i])) ==> r is Ok,
{
    let ghost owed = volume_range.spec_end() <= u64::MAX && (forall|i: int|
        0 <= i < clusters@.len() ==> #[trigger] volume.cluster_in_range(volume_range, clusters@[i]));
    let cluster_size = volume.cluster_size()?;
    let volume_limit = volume_range.end()?;
    let ghost start = volume_range.offset as int;
    let ghost old_diag = diagnostics@;
    let mut extents: Vec<Extent> = Vec::new();
    let mut logical: u64 = 0;
    let mut j: usize = 0;
    let mut stopped = false;
    while j < clusters.len() && !stopped
        invariant
            j <= clusters@.len(),
            forall|i: int|
                0 <= i < clusters@.len() ==> FIRST_CLUSTER <= #[trigger] clusters@[i]
                    < volume.spec_cluster_limit(),
            cluster_size == volume.bytes_per_sector * volume.sectors_per_cluster,
            cluster_size > 0,
            volume_limit == volume_range.spec_end(),
            start == volume_range.offset,
            old_diag == old(diagnostics)@,
            diagnostics@.len() >= old_diag.len(),
            diagnostics@.take(old_diag.len() as int) == old_diag,
            logical <= declared_size,
            !stopped ==> logical == min_int(declared_size as int, j * cluster_size),
            !stopped ==> usable_clusters(*volume, start, volume_limit as int, clusters@, declared_size as int, 0)
                == usable_clusters(*volume, start, volume_limit as int, clusters@, declared_size as int, j as int),
            stopped ==> logical == min_int(
                declared_size as int,
                usable_clusters(*volume, start, volume_limit as int, clusters@, declared_size as int, 0)
                    * cluster_size,
            ),
            tiles(extents@, logical as int),
            sum_lengths(extents@) == logical,
            maps_clusters(*volume, start, clusters@, extents@, logical as int),
            forall|i: int|
                #![trigger extents@[i]]
                0 <= i < extents@.len() ==> extents@[i].source_range.spec_end() <= volume_limit,
            owed == (volume_range.spec_end() <= u64::MAX && (forall|i: int|
                0 <= i < clusters@.len() ==> #[trigger] volume.cluster_in_range(volume_range, clusters@[i]))),
        decreases clusters@.len() - j + if stopped { 0int } else { 1int },
    {
        // Stop once the declared size is covered; the rest is cluster slack.
        if logical >= declared_size {
            stopped = true;
            proof {
                assert(usable_clusters(*volume, start, volume_limit as int, clusters@, declared_size as int, j as int) == j);
                assert(j * cluster_size >= declared_size);
            }
        } else {
            let cluster = clusters[j];
            proof {
                if owed {
                    assert(volume.cluster_in_range(volume_range, clusters@[j as int]));
                }
            }
            let offset = volume.cluster_offset(volume_range.offset, cluster)?;
            let length = if declared_size - logical < cluster_size {
                declared_size - logical
            } else {
                cluster_size
            };
            let range = ByteRange::new(offset, length)?;
            if range.end()? > volume_limit {
                diagnostics.push(string_of("a cluster extends outside the volume"));
                stopped = true;
                proof {
                    assert(diagnostics@.take(old_diag.len() as int) == old_diag);
                    assert(usable_clusters(*volume, start, volume_limit as int, clusters@, declared_size as int, j as int) == j);
                    assert(j * cluster_size < declared_size);
                }
            } else {
                let ghost old_ext = extents@;
                let n = extents.len();
                let mut merged = false;
                if n > 0 {
                    let last = extents[n - 1];
                    if last.source_range.offset + last.source_range.length == offset {
                        let grown = ByteRange::new(
                            last.source_range.offset,
                            last.source_range.length + length,
                        )?;
                        let e = Extent { source_range: grown, logical_offset: last.logical_offset };
                        extents.set(n - 1, e);
                        merged = true;
                        proof {
                            assert(extents@ == old_ext.drop_last().push(e));
                            assert forall|x: int| 0 <= x < logical + length implies #[trigger] source_of(
                                extents@,
                                x,
                            ) == volume.spec_cluster_offset(
                                start,
                                clusters@[x / cluster_size as int],
                            ) + x % cluster_size as int by {
                                if x < logical {
                                    lemma_source_of_grow(old_ext, e, x);
                                } else {
                                    assert(x / cluster_size as int == j && x % cluster_size as int == x - logical) by (nonlinear_arith)
                                        requires
                                            logical == j * cluster_size,
                                            logical <= x < logical + length,
                                            length <= cluster_size,
                                    ;
                                }
                            }
                            assert(extents@.drop_last() == old_ext.drop_last());
                            assert(extents@.last() == e);
                            assert forall|i: int| #![trigger extents@[i]] 0 <= i < extents@.len() - 1 implies extents@[i] == old_ext[i] by {}
                            assert(tiles(extents@, logical + length));
                            assert(sum_lengths(extents@) == sum_lengths(old_ext.drop_last()) + e.source_range.length);
                        }
                    }
                }
                if !merged {
                    let e = Extent::new(range, logical)?;
                    extents.push(e);
                    proof {
                        assert(extents@ == old_ext.push(e));
                        assert forall|x: int| 0 <= x < logical + length implies #[trigger] source_of(
                            extents@,
                            x,
                        ) == volume.spec_cluster_offset(
                            start,
                            clusters@[x / cluster_size as int],
                        ) + x % cluster_size as int by {
                            if x < logical {
                                lemma_source_of_push(old_ext, e, x);
                            } else {
                                assert(x / cluster_size as int == j && x % cluster_size as int == x - logical) by (nonlinear_arith)
                                    requires
                                        logical == j * cluster_size,
                                        logical <= x < logical + length,
                                        length <= cluster_size,
                                ;
                            }
                        }
                        assert(extents@.drop_last() == old_ext);
                        assert forall|i: int| #![trigger extents@[i]] 0 <= i < extents@.len() - 1 implies extents@[i] == old_ext[i] by {}
                        assert(tiles(extents@, logical + length));
                    }
                }
                proof {
                    assert(logical == j * cluster_size);
                }
                logical = logical + length;
                j = j + 1;
                proof {
                    if logical < declared_size {
                        assert(length == cluster_size);
                    }
                    assert(logical == min_int(declared_size as int, j * cluster_size)) by (nonlinear_arith)
                        requires
                            logical == (j - 1) * cluster_size + length,
                            length == min_int(declared_size - (j - 1) * cluster_size, cluster_size as int),
                            (j - 1) * cluster_size < declared_size,
                    ;
                }
            }
        }
    }
    proof {
        if !stopped {
            assert(usable_clusters(*volume, start, volume_limit as int, clusters@, declared_size as int, j as int) == j);
        }
    }
    proof {
        assert forall|i: int| #![trigger extents@[i]] 0 <= i < extents@.len() implies extents@[i].logical_end() <= u64::MAX by {
            lemma_tiles_end(extents@, logical as int, i);
        }
    }
    let recovered = total_length(extents.as_slice())?;
    validate_logical_layout(extents.as_slice())?;
    Ok((extents, recovered))
}

/// The state a stream's extents support.
pub open spec fn state_for(extents: Seq<Extent>, recovered: int, declared: int) -> ExtentState {
    if extents.len() == 0 {
        ExtentState::MetadataOnly
    } else if recovered < declared {
        ExtentState::PartiallyRecoverable
    } else {
        ExtentState::Recoverable
    }
}

/// Whether `clusters` are `first, first + 1, ...`, all in the heap, stopping
/// only at `needed` clusters or at the end of the heap.
pub open spec fn contiguous_clusters(v: ExfatVolume, first: u32, needed: int, clusters: Seq<u32>) -> bool {
    &&& clusters.len() <= needed
    &&& forall|i: int| 0 <= i < clusters.len() ==> #[trigger] clusters[i] == first + i
    &&& forall|i: int|
        0 <= i < clusters.len() ==> FIRST_CLUSTER <= #[trigger] clusters[i] < v.spec_cluster_limit()
    &&& clusters.len() < needed ==> !(FIRST_CLUSTER <= first + clusters.len() < v.spec_cluster_limit())
}

/// Whether `clusters` follow the FAT from `first`: each cluster's link is the
/// next one, all lie in the heap and none repeats.
pub open spec fn chain_prefix(v: ExfatVolume, contents: Seq<u8>, start: int, first: u32, clusters: Seq<u32>) -> bool {
    &&& clusters.len() > 0 ==> clusters[0] == first
    &&& forall|i: int|
        0 <= i < clusters.len() ==> FIRST_CLUSTER <= #[trigger] clusters[i] < v.spec_cluster_limit()
    &&& forall|i: int|
        #![trigger clusters[i]]
        0 <= i < clusters.len() - 1 ==> v.spec_link(contents, start, clusters[i]) == clusters[i + 1]
    &&& clusters.no_duplicates()
}

/// Whether a walk that has gathered `chain` had to stop there: the walk
/// bound is reached, or the last cluster's link cannot be read or is not
/// usable, or it ends the chain, or it leads back into `chain`.
pub open spec fn chain_walk_stopped(v: ExfatVolume, contents: Seq<u8>, range: ByteRange, chain: Seq<u32>) -> bool {
    let bound: int = if (v.cluster_count as int) < usize::MAX {
        v.cluster_count as int
    } else {
        usize::MAX - 1
    };
    let link = v.spec_link(contents, range.offset as int, chain.last());
    chain.len() > 0 && chain.len() <= bound && v.link_readable(contents, range, chain.last()) ==> (link
        == EXFAT_END_OF_CHAIN || chain.contains(link))
}

/// Clusters of a contiguous run, stopping at the end of the heap.
pub fn contiguous_run(volume: &ExfatVolume, first: u32, needed: u64, diagnostics: &mut Vec<String>) -> (r: RecoveryResult<Vec<u32>>)
    ensures
        final(diagnostics)@.len() >= old(diagnostics)@.len(),
        final(diagnostics)@.take(old(diagnostics)@.len() as int) == old(diagnostics)@,
        r matches Ok(clusters) ==> contiguous_clusters(*volume, first, needed as int, clusters@),
        first + needed <= u32::MAX + 1 ==> r is Ok,
{
    let ghost old_diag = diagnostics@;
    let mut clusters: Vec<u32> = Vec::new();
    let mut index: u64 = 0;
    while index < needed
        invariant_except_break
            clusters@.len() == index,
        invariant
            old_diag == old(diagnostics)@,
            diagnostics@.len() >= old_diag.len(),
            diagnostics@.take(old_diag.len() as int) == old_diag,
            index <= needed,
            clusters@.len() <= index,
            forall|i: int| 0 <= i < clusters@.len() ==> #[trigger] clusters@[i] == first + i,
            forall|i: int|
                0 <= i < clusters@.len() ==> FIRST_CLUSTER <= #[trigger] clusters@[i]
                    < volume.spec_cluster_limit(),
        ensures
            clusters@.len() <= needed,
            forall|i: int| 0 <= i < clusters@.len() ==> #[trigger] clusters@[i] == first + i,
            forall|i: int|
                0 <= i < clusters@.len() ==> FIRST_CLUSTER <= #[trigger] clusters@[i]
                    < volume.spec_cluster_limit(),
            clusters@.len() < needed ==> !(FIRST_CLUSTER <= first + clusters@.len()
                < volume.spec_cluster_limit()),
        decreases needed - index,
    {
        if index > u32::MAX as u64 - first as u64 {
            return Err(io_error("cluster number overflow"));
        }
        let cluster = (first as u64 + index) as u32;
        if !volume.is_valid_cluster(cluster) {
            diagnostics.push(string_of("contiguous run reaches the end of the cluster heap"));
            break;
        }
        clusters.push(cluster);
        index = index + 1;
    }
    Ok(clusters)
}

/// Resolves as much of a chain as remains valid, keeping the surviving prefix
/// so a damaged tail cannot discard a recoverable head.
pub fn partial_chain<D: BlockDevice>(device: &D, volume: &ExfatVolume, volume_range: ByteRange, start: u32) -> (chain: Vec<u32>)
    ensures
        chain_prefix(*volume, device.contents(), volume_range.offset as int, start, chain@),
        FIRST_CLUSTER <= start < volume.spec_cluster_limit() ==> chain@.len() > 0,
        readable(device) ==> chain_walk_stopped(*volume, device.contents(), volume_range, chain@),
{
    let mut chain: Vec<u32> = Vec::new();
    let mut seen: BTreeSet<u32> = BTreeSet::new();
    let bound: usize = if (volume.cluster_count as u64) < (usize::MAX as u64) {
        volume.cluster_count as usize
    } else {
        usize::MAX - 1
    };
    let mut current = start;
    let ghost contents = device.contents();
    let ghost vstart = volume_range.offset as int;
    while chain.len() <= bound
        invariant_except_break
            chain@.len() > 0 ==> volume.spec_link(contents, vstart, chain@.last()) == current,
            chain@.len() == 0 ==> current == start,
        invariant
            bound < usize::MAX,
            contents == device.contents(),
            vstart == volume_range.offset,
            chain_prefix(*volume, contents, vstart, start, chain@),
            FIRST_CLUSTER <= start < volume.spec_cluster_limit() ==> chain@.len() > 0
                || current == start,
            seen@ == chain@.to_set(),
            bound == (if (volume.cluster_count as int) < usize::MAX {
                volume.cluster_count as int
            } else {
                usize::MAX - 1
            }),
        ensures
            chain_prefix(*volume, contents, vstart, start, chain@),
            FIRST_CLUSTER <= start < volume.spec_cluster_limit() ==> chain@.len() > 0,
            readable(device) ==> chain_walk_stopped(*volume, contents, volume_range, chain@),
        decreases bound + 1 - chain.len(),
    {
        if !volume.is_valid_cluster(current) {
            break;
        }
        let ghost seen_before = seen@;
        if !seen.insert(current) {
            proof {
                assert(seen_before.contains(current));
                assert(chain@.to_set().contains(current));
            }
            break;
        }
        let ghost before = chain@;
        chain.push(current);
        proof {
            assert(chain@ == before.push(current));
            assert(chain@.to_set() == before.to_set().insert(current)) by {
                assert forall|x: u32| chain@.to_set().contains(x) <==> before.to_set().insert(
                    current,
                ).contains(x) by {
                    if before.to_set().contains(x) && x != current {
                        let k = choose|k: int| 0 <= k < before.len() && before[k] == x;
                        assert(chain@[k] == x);
                    }
                    if x == current {
                        assert(chain@[chain@.len() - 1] == x);
                    }
                }
                assert(chain@.to_set() =~= before.to_set().insert(current));
            }
            assert forall|a: int, b: int| 0 <= a < b < chain@.len() implies chain@[a]
                != chain@[b] by {
                if b == chain@.len() - 1 {
                    assert(before.to_set().contains(before[a]));
                }
            }
            assert forall|i: int| #![trigger chain@[i]] 0 <= i < chain@.len() - 1 implies volume.spec_link(
                contents,
                vstart,
                chain@[i],
            ) == chain@[i + 1] by {
                if i < before.len() - 1 {
                    assert(chain@[i] == before[i] && chain@[i + 1] == before[i + 1]);
                }
            }
        }
        match next_cluster(device, volume, volume_range, current) {
            Ok(Some(next)) => {
                current = next;
            },
            _ => {
                break;
            },
        }
    }
    chain
}

/// `a / b`, rounded up.
pub fn ceil_div(a: u64, b: u64) -> (r: u64)
    requires
        b > 0,
    ensures
        r == clusters_needed(a as int, b as int),
{
    let q = a / b;
    if a % b != 0 {
        assert(q < u64::MAX) by (nonlinear_arith)
            requires
                q == a / b,
                a % b != 0,
                b > 0,
                a <= u64::MAX,
        ;
        assert(q + 1 == (a + b - 1) / (b as int)) by (nonlinear_arith)
            requires
                q == a / b,
                a % b != 0,
                b > 0,
        ;
        q + 1
    } else {
        assert(q == (a + b - 1) / (b as int)) by (nonlinear_arith)
            requires
                q == a / b,
                a % b == 0,
                b > 0,
        ;
        q
    }
}

/// Clusters needed to hold `size` bytes.
pub open spec fn clusters_needed(size: int, cluster_size: int) -> int {
    (size + cluster_size - 1) / cluster_size
}

/// Resolves an active file's stream into logically ordered extents.
pub fn stream_extents<D: BlockDevice>(
    device: &D,
    volume: &ExfatVolume,
    volume_range: ByteRange,
    entry: &DirectoryEntry,
) -> (r: RecoveryResult<StreamExtents>)
    requires
        volume.bytes_per_sector * volume.sectors_per_cluster > 0,
    ensures
        entry.attributes & ATTR_DIRECTORY != 0 ==> r is Err,
        r matches Ok(s) ==> {
            &&& s.declared_size == entry.data_length
            &&& (entry.data_length == 0 || !(FIRST_CLUSTER <= entry.first_cluster
                < volume.spec_cluster_limit())) ==> {
                &&& s.extents@.len() == 0
                &&& s.recovered_size == 0
                &&& s.state == if entry.data_length == 0 {
                    ExtentState::Recoverable
                } else {
                    ExtentState::MetadataOnly
                }
            }
            &&& (entry.data_length > 0 && FIRST_CLUSTER <= entry.first_cluster
                < volume.spec_cluster_limit()) ==> {
                &&& s.state == state_for(s.extents@, s.recovered_size as int, entry.data_length as int)
                &&& logically_ordered(s.extents@)
                &&& exists|clusters: Seq<u32>|
                    #![trigger extents_of_clusters(*volume, volume_range, clusters, entry.data_length as int, s.extents@, s.recovered_size as int)]
                    extents_of_clusters(
                        *volume,
                        volume_range,
                        clusters,
                        entry.data_length as int,
                        s.extents@,
                        s.recovered_size as int,
                    ) && if entry.no_fat_chain {
                        contiguous_clusters(
                            *volume,
                            entry.first_cluster,
                            clusters_needed(
                                entry.data_length as int,
                                volume.bytes_per_sector * volume.sectors_per_cluster,
                            ),
                            clusters,
                        )
                    } else {
                        chain_prefix(
                            *volume,
                            device.contents(),
                            volume_range.offset as int,
                            entry.first_cluster,
                            clusters,
                        )
                    }
            }
        },
        entry.attributes & ATTR_DIRECTORY == 0 && volume_range.spec_end() <= u64::MAX && volume.bytes_per_sector * volume.sectors_per_cluster
            <= u64::MAX && volume.heap_in_range(volume_range) && entry.first_cluster + clusters_needed(
            entry.data_length as int,
            volume.bytes_per_sector * volume.sectors_per_cluster,
        ) <= u32::MAX + 1 ==> r is Ok,
{
    if entry.attributes & ATTR_DIRECTORY != 0 {
        return Err(io_error("cannot resolve stream extents for a directory"));
    }
    let declared_size = entry.data_length;
    let mut diagnostics: Vec<String> = Vec::new();
    // valid_data_length records how much has actually been written; the tail
    // between it and data_length is uninitialised, not recovered content.
    if entry.valid_data_length < declared_size {
        diagnostics.push(string_of("only part of the declared bytes were ever written"));
    }
    if declared_size == 0 || !volume.is_valid_cluster(entry.first_cluster) {
        if declared_size > 0 {
            diagnostics.push(string_of("stream declares content but has no valid start cluster"));
        }
        return Ok(
            StreamExtents {
                extents: Vec::new(),
                state: if declared_size == 0 {
                    ExtentState::Recoverable
                } else {
                    ExtentState::MetadataOnly
                },
                declared_size,
                recovered_size: 0,
                diagnostics,
            },
        );
    }
    let cluster_size = volume.cluster_size()?;
    let needed = ceil_div(declared_size, cluster_size);
    let clusters = if entry.no_fat_chain {
        // Contiguous by declaration: the FAT holds no chain for this stream.
        contiguous_run(volume, entry.first_cluster, needed, &mut diagnostics)?
    } else {
        match cluster_chain(device, volume, volume_range, entry.first_cluster) {
            Ok(chain) => chain,
            Err(_) => {
                diagnostics.push(string_of("cluster chain did not resolve cleanly"));
                partial_chain(device, volume, volume_range, entry.first_cluster)
            },
        }
    };
    let (extents, recovered_size) = build_extents(
        volume,
        volume_range,
        clusters.as_slice(),
        declared_size,
        &mut diagnostics,
    )?;
    let state = if extents.len() == 0 {
        ExtentState::MetadataOnly
    } else if recovered_size < declared_size {
        diagnostics.push(string_of("allocation supplied fewer bytes than declared"));
        ExtentState::PartiallyRecoverable
    } else {
        ExtentState::Recoverable
    };
    Ok(StreamExtents { extents, state, declared_size, recovered_size, diagnostics })
}

/// Appends copies of `more` to `out`.
pub fn append_all(out: &mut Vec<String>, more: &Vec<String>)
    ensures
        final(out)@.len() == old(out)@.len() + more@.len(),
        forall|i: int| 0 <= i < old(out)@.len() ==> #[trigger] final(out)@[i] == old(out)@[i],
        forall|i: int| 0 <= i < more@.len() ==> #[trigger] final(out)@[old(out)@.len() + i]@ == more@[i]@,
{
    let ghost start = out@;
    let mut d: usize = 0;
    while d < more.len()
        invariant
            d <= more@.len(),
            start == old(out)@,
            out@.len() == start.len() + d,
            forall|i: int| 0 <= i < start.len() ==> #[trigger] out@[i] == start[i],
            forall|i: int| 0 <= i < d ==> #[trigger] out@[start.len() + i]@ == more@[i]@,
        decreases more@.len() - d,
    {
        out.push(more[d].clone());
        d = d + 1;
    }
}

/// A deleted exFAT file candidate with the evidence behind its classification.
#[derive(Clone, Debug, PartialEq, Eq)]
pub struct DeletedCandidate {
    /// exFAT keeps the full name in its File Name entries, so unlike FAT32 no
    /// character is lost to a deletion tombstone.
    pub name: String,
    pub first_cluster: u32,
    pub declared_size: u64,
    pub extents: Vec<Extent>,
    pub state: ExtentState,
    pub confidence: Confidence,
    /// Append-only reasons supporting the classification.
    pub evidence: Vec<String>,
}

/// Whether the bitmap, when there is one, marks `cluster` in use.
pub open spec fn marked_in_use(bitmap: Option<&AllocationBitmap>, cluster: int) -> bool {
    match bitmap {
        Some(b) => b.spec_allocated(cluster as u32) == Some(true),
        None => false,
    }
}

/// Where an inferred contiguous run from `first` stops, scanning from index
/// `i`: at `needed` clusters, at the end of the heap, or at a cluster the
/// bitmap shows back in use.
pub open spec fn run_stop(
    v: ExfatVolume,
    bitmap: Option<&AllocationBitmap>,
    first: u32,
    needed: int,
    i: int,
) -> int
    decreases needed - i,
{
    if i < 0 || i >= needed || !(FIRST_CLUSTER <= first + i < v.spec_cluster_limit())
        || marked_in_use(bitmap, first + i) {
        i
    } else {
        run_stop(v, bitmap, first, needed, i + 1)
    }
}

/// The confidence a deleted candidate's evidence supports.
pub open spec fn deleted_confidence(
    state: ExtentState,
    contiguity_recorded: bool,
    needed: int,
    bitmap_present: bool,
    reallocated: bool,
) -> Confidence {
    match state {
        ExtentState::MetadataOnly => Confidence::Unknown,
        ExtentState::PartiallyRecoverable => Confidence::Low,
        ExtentState::Recoverable => if (contiguity_recorded || needed == 1) && bitmap_present
            && !reallocated {
            Confidence::Medium
        } else {
            Confidence::Low
        },
    }
}

/// Reconstructs a candidate from a deleted entry set.
///
/// The allocation bitmap is evidence, not proof: a cluster marked free may
/// still have been overwritten. A cluster marked in use has been handed to
/// another file, so claiming it would fabricate content.
pub fn deleted_candidate(
    volume: &ExfatVolume,
    volume_range: ByteRange,
    bitmap: Option<&AllocationBitmap>,
    entry: &DirectoryEntry,
) -> (r: RecoveryResult<DeletedCandidate>)
    requires
        volume.bytes_per_sector * volume.sectors_per_cluster > 0,
    ensures
        !entry.deleted ==> r is Err,
        r matches Ok(c) ==> {
            let size = volume.bytes_per_sector * volume.sectors_per_cluster;
            let needed = clusters_needed(entry.data_length as int, size);
            let stop = run_stop(*volume, bitmap, entry.first_cluster, needed, 0);
            let reallocated = stop < needed && FIRST_CLUSTER <= entry.first_cluster + stop
                < volume.spec_cluster_limit() && marked_in_use(bitmap, entry.first_cluster + stop);
            let recovered = sum_lengths(c.extents@);
            &&& c.name@ == entry.name@
            &&& c.first_cluster == entry.first_cluster
            &&& c.declared_size == entry.data_length
            &&& c.evidence@.len() > 0
            &&& c.confidence != Confidence::High
            &&& (entry.data_length == 0 || !(FIRST_CLUSTER <= entry.first_cluster
                < volume.spec_cluster_limit())) ==> {
                &&& c.extents@.len() == 0
                &&& c.state == ExtentState::MetadataOnly
                &&& c.confidence == Confidence::Unknown
            }
            &&& (entry.data_length > 0 && FIRST_CLUSTER <= entry.first_cluster
                < volume.spec_cluster_limit()) ==> {
                &&& extents_of_clusters(
                    *volume,
                    volume_range,
                    Seq::new(stop as nat, |i: int| (entry.first_cluster + i) as u32),
                    entry.data_length as int,
                    c.extents@,
                    recovered,
                )
                &&& logically_ordered(c.extents@)
                &&& c.state == state_for(c.extents@, recovered, entry.data_length as int)
                &&& c.confidence == deleted_confidence(
                    c.state,
                    entry.no_fat_chain,
                    needed,
                    bitmap is Some,
                    reallocated,
                )
            }
        },
        entry.deleted && volume_range.spec_end() <= u64::MAX && volume.bytes_per_sector * volume.sectors_per_cluster
            <= u64::MAX && volume.heap_in_range(volume_range) && entry.first_cluster + clusters_needed(
            entry.data_length as int,
            volume.bytes_per_sector * volume.sectors_per_cluster,
        ) <= u32::MAX + 1 ==> r is Ok,
{
    if !entry.deleted {
        return Err(io_error("entry set is not deleted"));
    }
    let declared_size = entry.data_length;
    let mut evidence: Vec<String> = Vec::new();
    evidence.push(string_of("name recovered intact from the file name entries"));
    if declared_size == 0 || !volume.is_valid_cluster(entry.first_cluster) {
        evidence.push(string_of("entry set survives but no content is locatable"));
        return Ok(
            DeletedCandidate {
                name: entry.name.clone(),
                first_cluster: entry.first_cluster,
                declared_size,
                extents: Vec::new(),
                state: ExtentState::MetadataOnly,
                confidence: Confidence::Unknown,
                evidence,
            },
        );
    }
    let cluster_size = volume.cluster_size()?;
    let needed = ceil_div(declared_size, cluster_size);
    let mut diagnostics: Vec<String> = Vec::new();
    let mut clusters: Vec<u32> = Vec::new();
    let mut reallocated = false;
    let mut index: u64 = 0;
    let ghost first = entry.first_cluster;
    let mut stopped = false;
    while index < needed && !stopped
        invariant
            index <= needed,
            first == entry.first_cluster,
            clusters@.len() == index,
            forall|i: int| 0 <= i < clusters@.len() ==> #[trigger] clusters@[i] == first + i,
            forall|i: int|
                0 <= i < clusters@.len() ==> FIRST_CLUSTER <= #[trigger] clusters@[i]
                    < volume.spec_cluster_limit(),
            !stopped ==> run_stop(*volume, bitmap, first, needed as int, 0) == run_stop(
                *volume,
                bitmap,
                first,
                needed as int,
                index as int,
            ),
            stopped ==> run_stop(*volume, bitmap, first, needed as int, 0) == index,
            stopped ==> index < needed,
            !stopped ==> !reallocated,
            reallocated == (stopped && FIRST_CLUSTER <= first + index < volume.spec_cluster_limit()
                && marked_in_use(bitmap, first + index)),
            evidence@.len() > 0,
            needed == clusters_needed(entry.data_length as int, volume.bytes_per_sector * volume.sectors_per_cluster),
        decreases needed - index + if stopped { 0int } else { 1int },
    {
        if index > u32::MAX as u64 - entry.first_cluster as u64 {
            return Err(io_error("cluster number overflow"));
        }
        let cluster = (entry.first_cluster as u64 + index) as u32;
        if !volume.is_valid_cluster(cluster) {
            evidence.push(string_of("inferred run reaches the end of the cluster heap"));
            stopped = true;
        } else {
            // A cluster back in use holds another file's data.
            let in_use = match bitmap {
                Some(b) => match b.is_allocated(cluster) {
                    Some(true) => true,
                    _ => false,
                },
                None => false,
            };
            if in_use {
                evidence.push(string_of("a cluster is allocated to another file; content is overwritten"));
                reallocated = true;
                stopped = true;
            } else {
                clusters.push(cluster);
                index = index + 1;
            }
        }
    }
    proof {
        if !stopped {
            assert(run_stop(*volume, bitmap, first, needed as int, index as int) == index);
        }
        assert(clusters@ == Seq::new(index as nat, |i: int| (first + i) as u32));
        let stop = run_stop(*volume, bitmap, first, needed as int, 0);
        assert(stop == index);
        assert(reallocated == (stop < needed && FIRST_CLUSTER <= first + stop < volume.spec_cluster_limit() && marked_in_use(bitmap, first + stop)));
    }
    let (extents, recovered_size) = build_extents(
        volume,
        volume_range,
        clusters.as_slice(),
        declared_size,
        &mut diagnostics,
    )?;
    append_all(&mut evidence, &diagnostics);
    let state = if extents.len() == 0 {
        ExtentState::MetadataOnly
    } else if recovered_size < declared_size {
        ExtentState::PartiallyRecoverable
    } else {
        ExtentState::Recoverable
    };
    // A deleted entry set's NoFatChain flag records that the stream *was*
    // contiguous, which is stronger evidence than FAT32 leaves behind. It is
    // still not proof the content survived untouched.
    if entry.no_fat_chain {
        evidence.push(string_of("stream was recorded as contiguous, so the run is not inferred"));
    } else {
        evidence.push(string_of("cluster chain released by deletion; contiguous allocation inferred"));
        if needed > 1 {
            evidence.push(string_of("multi-cluster file may have been fragmented; contiguity is unverified"));
        }
    }
    if bitmap.is_none() {
        evidence.push(string_of("allocation bitmap unavailable; overwrite could not be checked"));
    }
    let confidence = match state {
        ExtentState::MetadataOnly => Confidence::Unknown,
        ExtentState::PartiallyRecoverable => Confidence::Low,
        ExtentState::Recoverable => {
            // Contiguity that was recorded on disk, or a single-cluster file
            // that cannot be fragmented, beats a bare inference. Either still
            // needs the bitmap to show the clusters were never reused.
            let contiguity_is_evidenced = entry.no_fat_chain || needed == 1;
            if contiguity_is_evidenced && bitmap.is_some() && !reallocated {
                Confidence::Medium
            } else {
                Confidence::Low
            }
        },
    };
    Ok(
        DeletedCandidate {
            name: entry.name.clone(),
            first_cluster: entry.first_cluster,
            declared_size,
            extents,
            state,
            confidence,
            evidence,
        },
    )
}

} // verus!
