//! FAT32 volumes: boot geometry, cluster chains, and root-directory entries
//! with long-file-name assembly.

use std::collections::BTreeSet;
use vstd::prelude::*;
use crate::bytes::{le_u16, le_u32, spec_le_u16, spec_le_u32};
use crate::device::{read_exact, readable, span, BlockDevice};
use crate::range::{io_error, ByteRange, RecoveryError, RecoveryResult};
use crate::text::{string_from_chars, string_push};
use crate::unicode::{
    decode_utf16, is_whitespace, scalars, trim_ws_end, trimmed_end_len, utf16_scalars,
};

verus! {

broadcast use vstd::laws_cmp::group_laws_cmp;

pub const DIR_ENTRY_SIZE: usize = 32;
pub const END_OF_DIRECTORY: u8 = 0x00;
pub const DELETED: u8 = 0xE5;
pub const LFN_ATTR: u8 = 0x0F;
pub const LFN_LAST_MASK: u8 = 0x40;
pub const LFN_ORDER_MASK: u8 = 0x1F;
pub const LFN_MAX_ORDER: u8 = 20;
pub const LFN_CHARS_PER_ENTRY: usize = 13;
pub const FAT32_EOC_MIN: u32 = 0x0FFF_FFF8;
pub const FAT32_BAD_CLUSTER: u32 = 0x0FFF_FFF7;
pub const MAX_METADATA_CLUSTER_SIZE: u64 = 16 * 1024 * 1024;
pub const MAX_CHAIN_CLUSTERS: u64 = 1_000_000;

/// Validated FAT32 geometry.
#[derive(Clone, Debug, PartialEq, Eq)]
pub struct Fat32Volume {
    pub bytes_per_sector: u64,
    pub sectors_per_cluster: u64,
    pub reserved_sectors: u64,
    pub fat_count: u64,
    pub sectors_per_fat: u64,
    pub first_data_sector: u64,
    pub root_cluster: u32,
    pub cluster_count: u64,
}

/// A FAT directory entry.
#[derive(Clone, Debug, PartialEq, Eq)]
pub struct DirectoryEntry {
    pub short_name: String,
    pub attributes: u8,
    pub first_cluster: u32,
    pub size: u32,
    pub deleted: bool,
    /// Assembled long file name, when a valid checksum-matched long-name set
    /// precedes the short entry. `None` means callers must fall back to
    /// `short_name`.
    pub long_name: Option<String>,
}

impl DirectoryEntry {
    /// Preferred display name: the long name when one was recovered.
    pub fn name(&self) -> (r: &str)
        ensures
            r@ == match self.long_name {
                Some(n) => n@,
                None => self.short_name@,
            },
    {
        match &self.long_name {
            Some(n) => n.as_str(),
            None => self.short_name.as_str(),
        }
    }
}

/// Whether `v` is a power of two.
pub open spec fn is_pow2(v: int) -> bool
    decreases v,
{
    if v <= 0 {
        false
    } else if v == 1 {
        true
    } else {
        v % 2 == 0 && is_pow2(v / 2)
    }
}

/// Executable form of [`is_pow2`].
pub fn pow2_u64(v: u64) -> (r: bool)
    ensures
        r == is_pow2(v as int),
{
    if v == 0 {
        return false;
    }
    let mut x = v;
    while x > 1
        invariant
            x >= 1,
            is_pow2(v as int) == is_pow2(x as int),
        decreases x,
    {
        if x % 2 != 0 {
            return false;
        }
        x = x / 2;
    }
    true
}

/// Total sectors a FAT boot sector declares.
pub open spec fn boot_total_sectors(b: Seq<u8>) -> int {
    if spec_le_u16(b, 19) != 0 {
        spec_le_u16(b, 19)
    } else {
        spec_le_u32(b, 32)
    }
}

/// First data sector a FAT32 boot sector declares.
pub open spec fn boot_first_data_sector(b: Seq<u8>) -> int {
    spec_le_u16(b, 14) + b[16] * spec_le_u32(b, 36)
}

/// Data clusters a FAT32 boot sector declares.
pub open spec fn boot_cluster_count(b: Seq<u8>) -> int {
    (boot_total_sectors(b) - boot_first_data_sector(b)) / (b[13] as int)
}

/// Whether a 512-byte boot sector describes a FAT32 volume that fits in
/// `range_length` bytes.
pub open spec fn fat32_boot_valid(b: Seq<u8>, range_length: int) -> bool {
    let bps = spec_le_u16(b, 11);
    let spc = b[13] as int;
    &&& b[510] == 0x55 && b[511] == 0xAA
    &&& is_pow2(bps) && 512 <= bps <= 4096
    &&& is_pow2(spc)
    &&& spec_le_u16(b, 14) != 0
    &&& b[16] != 0
    &&& spec_le_u16(b, 17) == 0
    &&& spec_le_u16(b, 22) == 0
    &&& spec_le_u32(b, 36) != 0
    &&& boot_total_sectors(b) != 0
    &&& spec_le_u32(b, 44) >= 2
    &&& boot_first_data_sector(b) < boot_total_sectors(b)
    &&& boot_cluster_count(b) != 0
    &&& spec_le_u32(b, 44) < boot_cluster_count(b) + 2
    &&& boot_total_sectors(b) * bps <= range_length
}

/// The geometry a valid FAT32 boot sector describes.
pub open spec fn fat32_volume_of(b: Seq<u8>) -> Fat32Volume {
    Fat32Volume {
        bytes_per_sector: spec_le_u16(b, 11) as u64,
        sectors_per_cluster: b[13] as u64,
        reserved_sectors: spec_le_u16(b, 14) as u64,
        fat_count: b[16] as u64,
        sectors_per_fat: spec_le_u32(b, 36) as u64,
        first_data_sector: boot_first_data_sector(b) as u64,
        root_cluster: spec_le_u32(b, 44) as u32,
        cluster_count: boot_cluster_count(b) as u64,
    }
}

/// Validates a FAT32 boot sector read from the start of a volume of
/// `range_length` bytes.
pub fn parse_boot_sector(boot: &[u8], range_length: u64) -> (r: RecoveryResult<Fat32Volume>)
    requires
        boot@.len() == 512,
    ensures
        r is Ok <==> fat32_boot_valid(boot@, range_length as int),
        r matches Ok(v) ==> v == fat32_volume_of(boot@),
        r matches Err(e) ==> e is IoFailure,
{
    if boot[510] != 0x55 || boot[511] != 0xAA {
        return Err(io_error("invalid FAT32 boot signature"));
    }
    let bps = le_u16(boot, 11) as u64;
    let spc = boot[13] as u64;
    let reserved = le_u16(boot, 14) as u64;
    let fats = boot[16] as u64;
    let root_entries = le_u16(boot, 17);
    let total16 = le_u16(boot, 19) as u64;
    let fat16 = le_u16(boot, 22) as u64;
    let total32 = le_u32(boot, 32) as u64;
    let fat_size = le_u32(boot, 36) as u64;
    let root_cluster = le_u32(boot, 44);
    let total = if total16 != 0 {
        total16
    } else {
        total32
    };
    if !pow2_u64(bps) || bps < 512 || bps > 4096 || !pow2_u64(spc) || spc == 0 || reserved == 0
        || fats == 0 || root_entries != 0 || fat16 != 0 || fat_size == 0 || total == 0
        || root_cluster < 2 {
        return Err(io_error("invalid FAT32 geometry"));
    }
    assert(fats * fat_size <= 255 * 0xFFFF_FFFF) by (nonlinear_arith)
        requires
            fats <= 255,
            fat_size <= 0xFFFF_FFFF,
    ;
    let first_data_sector = reserved + fats * fat_size;
    if first_data_sector >= total {
        return Err(io_error("FAT32 data region outside volume"));
    }
    let clusters = (total - first_data_sector) / spc;
    if clusters == 0 || root_cluster as u64 >= clusters + 2 {
        return Err(io_error("invalid FAT32 cluster geometry"));
    }
    assert(total * bps <= 0xFFFF_FFFF * 4096) by (nonlinear_arith)
        requires
            total <= 0xFFFF_FFFF,
            bps <= 4096,
    ;
    let declared_bytes = total * bps;
    if declared_bytes > range_length {
        return Err(io_error("FAT32 volume exceeds supplied range"));
    }
    Ok(
        Fat32Volume {
            bytes_per_sector: bps,
            sectors_per_cluster: spc,
            reserved_sectors: reserved,
            fat_count: fats,
            sectors_per_fat: fat_size,
            first_data_sector,
            root_cluster,
            cluster_count: clusters,
        },
    )
}

/// Reads and validates the FAT32 boot sector at the start of `range`.
pub fn parse_volume<D: BlockDevice>(device: &D, range: ByteRange) -> (r: RecoveryResult<
    Fat32Volume,
>)
    ensures
        r matches Ok(v) ==> {
            &&& range.within(device.contents().len() as int)
            &&& range.length >= 512
            &&& fat32_boot_valid(span(device, range.offset as int, 512), range.length as int)
            &&& v == fat32_volume_of(span(device, range.offset as int, 512))
        },
        !range.within(device.contents().len() as int) || range.length < 512 ==> r is Err,
        readable(device) && range.within(device.contents().len() as int) && range.length >= 512 && fat32_boot_valid(
            span(device, range.offset as int, 512),
            range.length as int,
        ) ==> r is Ok,
{
    range.validate_within(device.capacity())?;
    if range.length < 512 {
        return Err(io_error("FAT32 range smaller than boot sector"));
    }
    let boot = read_exact(device, range.offset, 512)?;
    parse_boot_sector(boot.as_slice(), range.length)
}

impl Fat32Volume {
    /// Whether `cluster` names a data cluster of this volume.
    pub open spec fn in_heap(&self, cluster: u32) -> bool {
        2 <= cluster && cluster < self.cluster_count + 2
    }

    /// Byte offset of `cluster`'s data, for a volume starting at `start`.
    pub open spec fn spec_cluster_offset(&self, start: int, cluster: u32) -> int {
        start + (self.first_data_sector + (cluster - 2) * self.sectors_per_cluster)
            * self.bytes_per_sector
    }

    /// Byte offset of `cluster`'s entry in the first FAT.
    pub open spec fn spec_fat_offset(&self, start: int, cluster: u32) -> int {
        start + self.reserved_sectors * self.bytes_per_sector + cluster * 4
    }

    /// Bytes per cluster.
    pub fn cluster_size(&self) -> (r: RecoveryResult<u64>)
        ensures
            r matches Ok(s) ==> s == self.bytes_per_sector * self.sectors_per_cluster,
            r is Ok <==> self.bytes_per_sector * self.sectors_per_cluster <= u64::MAX,
    {
        match self.bytes_per_sector.checked_mul(self.sectors_per_cluster) {
            Some(v) => Ok(v),
            None => Err(io_error("cluster size overflow")),
        }
    }

    /// Byte offset of `cluster` within the source, given the volume's start.
    pub fn cluster_offset(&self, volume_start: u64, cluster: u32) -> (r: RecoveryResult<u64>)
        ensures
            r matches Ok(o) ==> self.in_heap(cluster) && o == self.spec_cluster_offset(
                volume_start as int,
                cluster,
            ),
            !self.in_heap(cluster) ==> r is Err,
            self.in_heap(cluster) && (cluster - 2) * self.sectors_per_cluster <= u64::MAX
                && self.first_data_sector + (cluster - 2) * self.sectors_per_cluster <= u64::MAX
                && (self.first_data_sector + (cluster - 2) * self.sectors_per_cluster)
                * self.bytes_per_sector <= u64::MAX && self.spec_cluster_offset(
                volume_start as int,
                cluster,
            ) <= u64::MAX ==> r is Ok,
    {
        if cluster < 2 || cluster as u64 >= self.cluster_count.saturating_add(2) {
            return Err(io_error("cluster outside FAT32 data region"));
        }
        let delta = match ((cluster - 2) as u64).checked_mul(self.sectors_per_cluster) {
            Some(v) => v,
            None => return Err(io_error("cluster sector overflow")),
        };
        let sector = match self.first_data_sector.checked_add(delta) {
            Some(v) => v,
            None => return Err(io_error("cluster sector overflow")),
        };
        let bytes = match sector.checked_mul(self.bytes_per_sector) {
            Some(v) => v,
            None => return Err(io_error("cluster byte overflow")),
        };
        match volume_start.checked_add(bytes) {
            Some(v) => Ok(v),
            None => Err(io_error("cluster offset overflow")),
        }
    }

    /// Byte offset of `cluster`'s entry in the first FAT.
    pub fn fat_offset(&self, volume_start: u64, cluster: u32) -> (r: RecoveryResult<u64>)
        ensures
            r matches Ok(o) ==> self.in_heap(cluster) && o == self.spec_fat_offset(
                volume_start as int,
                cluster,
            ),
            !self.in_heap(cluster) ==> r is Err,
            self.in_heap(cluster) && self.reserved_sectors * self.bytes_per_sector <= u64::MAX
                && self.spec_fat_offset(volume_start as int, cluster) <= u64::MAX ==> r is Ok,
    {
        if cluster < 2 || cluster as u64 >= self.cluster_count.saturating_add(2) {
            return Err(io_error("cluster outside FAT32 data region"));
        }
        let fat_base = match self.reserved_sectors.checked_mul(self.bytes_per_sector) {
            Some(v) => v,
            None => return Err(RecoveryError::RangeOverflow),
        };
        let entry = (cluster as u64) * 4;
        match volume_start.checked_add(fat_base) {
            Some(v) => match v.checked_add(entry) {
                Some(w) => Ok(w),
                None => Err(RecoveryError::RangeOverflow),
            },
            None => Err(RecoveryError::RangeOverflow),
        }
    }

    /// The 28-bit link stored in `cluster`'s FAT entry.
    pub open spec fn spec_link(&self, contents: Seq<u8>, start: int, cluster: u32) -> u32 {
        (spec_le_u32(contents, self.spec_fat_offset(start, cluster)) as u32) & 0x0FFF_FFFF
    }

    /// Whether `link` marks the end of a chain.
    pub open spec fn is_end_link(link: u32) -> bool {
        link >= FAT32_EOC_MIN
    }

    /// Whether `link` names a further data cluster.
    pub open spec fn is_next_link(&self, link: u32) -> bool {
        link < FAT32_EOC_MIN && link != FAT32_BAD_CLUSTER && self.in_heap(link)
    }

    /// Whether `cluster`'s FAT entry lies inside the volume `range` and the
    /// source, with offsets that fit a `u64`, and holds an end mark or a link
    /// to a data cluster.
    pub open spec fn link_readable(&self, contents: Seq<u8>, range: ByteRange, cluster: u32) -> bool {
        let off = self.spec_fat_offset(range.offset as int, cluster);
        let link = self.spec_link(contents, range.offset as int, cluster);
        &&& self.in_heap(cluster)
        &&& self.reserved_sectors * self.bytes_per_sector <= u64::MAX
        &&& off + 4 <= u64::MAX
        &&& range.spec_end() <= u64::MAX
        &&& off + 4 <= range.spec_end()
        &&& off + 4 <= contents.len()
        &&& Self::is_end_link(link) || self.is_next_link(link)
    }

    /// The longest chain a walk follows.
    pub open spec fn chain_limit(&self) -> int {
        if self.cluster_count < MAX_CHAIN_CLUSTERS {
            self.cluster_count as int
        } else {
            MAX_CHAIN_CLUSTERS as int
        }
    }

    /// Whether `chain` is the chain from `start`, within the walk's limit,
    /// with every FAT entry on it readable.
    #[verifier::opaque]
    pub open spec fn walkable_chain(&self, contents: Seq<u8>, range: ByteRange, start: u32, chain: Seq<u32>) -> bool {
        &&& self.is_chain(contents, range.offset as int, chain)
        &&& chain[0] == start
        &&& chain.len() <= self.chain_limit() + 1
        &&& forall|i: int| 0 <= i < chain.len() ==> #[trigger] self.link_readable(contents, range, chain[i])
    }

    /// Reads the FAT entry for `cluster`: the next cluster, or `None` at the
    /// end of the chain.
    pub fn next_cluster<D: BlockDevice>(
        &self,
        device: &D,
        volume_range: ByteRange,
        cluster: u32,
    ) -> (r: RecoveryResult<Option<u32>>)
        ensures
            r is Ok ==> self.in_heap(cluster) && self.spec_fat_offset(
                volume_range.offset as int,
                cluster,
            ) + 4 <= volume_range.spec_end() && self.spec_fat_offset(
                volume_range.offset as int,
                cluster,
            ) + 4 <= device.contents().len(),
            r matches Ok(None) ==> Self::is_end_link(
                self.spec_link(device.contents(), volume_range.offset as int, cluster),
            ),
            r matches Ok(Some(n)) ==> n == self.spec_link(
                device.contents(),
                volume_range.offset as int,
                cluster,
            ) && self.is_next_link(n),
            !self.in_heap(cluster) ==> r is Err,
            readable(device) && self.link_readable(device.contents(), volume_range, cluster) ==> r is Ok,
    {
        let offset = self.fat_offset(volume_range.offset, cluster)?;
        if offset > u64::MAX - 4 {
            return Err(RecoveryError::RangeOverflow);
        }
        let end = volume_range.end()?;
        if offset + 4 > end {
            return Err(io_error("FAT entry outside volume"));
        }
        let raw = read_exact(device, offset, 4)?;
        let value = le_u32(raw.as_slice(), 0) & 0x0FFF_FFFF;
        proof {
            assert(raw@ == device.contents().subrange(offset as int, offset + 4));
            assert(spec_le_u32(raw@, 0) == spec_le_u32(device.contents(), offset as int));
        }
        if value >= FAT32_EOC_MIN {
            return Ok(None);
        }
        if value == FAT32_BAD_CLUSTER || value < 2 || value as u64 >= self.cluster_count.saturating_add(
            2,
        ) {
            return Err(io_error("invalid FAT32 cluster link"));
        }
        Ok(Some(value))
    }

    /// Whether `chain` is a cluster chain of this volume starting at `start`:
    /// every link leads to the next element, and the last element ends it.
    pub open spec fn is_chain(&self, contents: Seq<u8>, start: int, chain: Seq<u32>) -> bool {
        &&& chain.len() > 0
        &&& forall|i: int| 0 <= i < chain.len() ==> self.in_heap(#[trigger] chain[i])
        &&& forall|i: int|
            #![trigger chain[i]]
            0 <= i < chain.len() - 1 ==> self.spec_link(contents, start, chain[i]) == chain[i + 1]
        &&& Self::is_end_link(self.spec_link(contents, start, chain.last()))
        &&& chain.no_duplicates()
    }

    proof fn lemma_walk_basic(&self, contents: Seq<u8>, range: ByteRange, start: u32, w: Seq<u32>)
        requires
            self.walkable_chain(contents, range, start, w),
        ensures
            0 < w.len() <= self.chain_limit() + 1,
            w[0] == start,
            self.in_heap(start),
    {
        reveal(Fat32Volume::walkable_chain);
    }

    proof fn lemma_walk_fresh(&self, contents: Seq<u8>, range: ByteRange, start: u32, w: Seq<u32>, n: int)
        requires
            self.walkable_chain(contents, range, start, w),
            0 <= n < w.len(),
        ensures
            !w.take(n).contains(w[n]),
            self.link_readable(contents, range, w[n]),
            w.len() <= self.chain_limit() + 1,
            w[0] == start,
    {
        reveal(Fat32Volume::walkable_chain);
        if w.take(n).contains(w[n]) {
            let k = choose|k: int| 0 <= k < n && w.take(n)[k] == w[n];
            assert(w[k] == w[n]);
        }
    }

    proof fn lemma_walk_next(&self, contents: Seq<u8>, range: ByteRange, start: u32, w: Seq<u32>, n: int, next: u32)
        requires
            self.walkable_chain(contents, range, start, w),
            0 <= n < w.len(),
            next == self.spec_link(contents, range.offset as int, w[n]),
            self.is_next_link(next),
        ensures
            n + 1 < w.len(),
            w[n + 1] == next,
            w.take(n + 1).push(next) == w.take(n + 2),
    {
        reveal(Fat32Volume::walkable_chain);
        if n + 1 == w.len() {
            assert(w.last() == w[n]);
        }
        assert(w.take(n + 1).push(next) =~= w.take(n + 2));
    }

    /// Follows the chain from `start`, refusing loops and chains longer than
    /// the traversal limit.
    #[verifier::rlimit(100)]
    pub fn cluster_chain<D: BlockDevice>(
        &self,
        device: &D,
        volume_range: ByteRange,
        start: u32,
    ) -> (r: RecoveryResult<Vec<u32>>)
        ensures
            r matches Ok(chain) ==> chain@[0] == start && self.is_chain(
                device.contents(),
                volume_range.offset as int,
                chain@,
            ),
            start < 2 ==> r is Err,
            readable(device) && (exists|w: Seq<u32>| #[trigger] self.walkable_chain(device.contents(), volume_range, start, w))
                ==> r is Ok,
    {
        proof {
            if readable(device) && exists|w: Seq<u32>| #[trigger] self.walkable_chain(device.contents(), volume_range, start, w) {
                let w = choose|w: Seq<u32>| #[trigger] self.walkable_chain(device.contents(), volume_range, start, w);
                self.lemma_walk_basic(device.contents(), volume_range, start, w);
            }
        }
        if start < 2 {
            return Err(io_error("invalid starting cluster"));
        }
        let max: u64 = if self.cluster_count < MAX_CHAIN_CLUSTERS {
            self.cluster_count
        } else {
            MAX_CHAIN_CLUSTERS
        };
        let ghost has_w = readable(device) && exists|w: Seq<u32>| #[trigger] self.walkable_chain(device.contents(), volume_range, start, w);
        let ghost w = choose|w: Seq<u32>| #[trigger] self.walkable_chain(device.contents(), volume_range, start, w);
        proof {
            if has_w {
                self.lemma_walk_basic(device.contents(), volume_range, start, w);
                assert(Seq::<u32>::empty() == w.take(0));
            }
        }
        let mut chain: Vec<u32> = Vec::new();
        let mut seen: BTreeSet<u32> = BTreeSet::new();
        let mut current = start;
        while (chain.len() as u64) <= max
            invariant
                max <= MAX_CHAIN_CLUSTERS,
                chain.len() <= max + 1,
                chain@.len() > 0 ==> chain@[0] == start,
                chain@.len() == 0 ==> current == start,
                forall|i: int| 0 <= i < chain@.len() ==> self.in_heap(#[trigger] chain@[i]),
                forall|i: int|
                    #![trigger chain@[i]]
                    0 <= i < chain@.len() - 1 ==> self.spec_link(
                        device.contents(),
                        volume_range.offset as int,
                        chain@[i],
                    ) == chain@[i + 1],
                chain@.len() > 0 ==> self.spec_link(
                    device.contents(),
                    volume_range.offset as int,
                    chain@.last(),
                ) == current,
                chain@.no_duplicates(),
                seen@ == chain@.to_set(),
                max == self.chain_limit(),
                has_w == (readable(device) && exists|w: Seq<u32>| #[trigger] self.walkable_chain(device.contents(), volume_range, start, w)),
                has_w ==> readable(device) && self.walkable_chain(device.contents(), volume_range, start, w),
                has_w ==> chain@ == w.take(chain@.len() as int) && chain@.len() < w.len() && current == w[chain@.len() as int],
            decreases max + 1 - chain.len(),
        {
            proof {
                if has_w {
                    self.lemma_walk_fresh(device.contents(), volume_range, start, w, chain@.len() as int);
                    assert(!seen@.contains(current));
                }
            }
            if !seen.insert(current) {
                return Err(io_error("FAT32 cluster chain loop"));
            }
            let ghost before = chain@;
            chain.push(current);
            proof {
                lemma_push_fresh(before, current);
            }
            proof {
                if has_w {
                    assert(chain@ == w.take(chain@.len() as int));
                }
            }
            match self.next_cluster(device, volume_range, current)? {
                Some(next) => {
                    proof {
                        if has_w {
                            self.lemma_walk_next(device.contents(), volume_range, start, w, chain@.len() - 1, next);
                        }
                    }
                    current = next;
                },
                None => {
                    return Ok(chain);
                },
            }
        }
        proof {
            if has_w {
                self.lemma_walk_basic(device.contents(), volume_range, start, w);
            }
        }
        Err(io_error("FAT32 cluster chain exceeds traversal limit"))
    }
}

/// Pushing an element not yet present keeps a sequence free of duplicates
/// and adds it to its set.
pub(crate) proof fn lemma_push_fresh(before: Seq<u32>, x: u32)
    requires
        before.no_duplicates(),
        !before.to_set().contains(x),
    ensures
        before.push(x).no_duplicates(),
        before.push(x).to_set() == before.to_set().insert(x),
{
    let after = before.push(x);
    assert forall|y: u32| after.to_set().contains(y) <==> before.to_set().insert(x).contains(y) by {
        if before.to_set().contains(y) && y != x {
            let k = choose|k: int| 0 <= k < before.len() && before[k] == y;
            assert(after[k] == y);
        }
        if y == x {
            assert(after[after.len() - 1] == y);
        }
    }
    assert(after.to_set() =~= before.to_set().insert(x));
    assert forall|a: int, b: int| 0 <= a < b < after.len() implies after[a] != after[b] by {
        if b == after.len() - 1 {
            assert(before.to_set().contains(before[a]));
        }
    }
}

/// The characters `String::from_utf8_lossy` decodes `bytes` to: UTF-8 with
/// each invalid sequence replaced by U+FFFD.
pub uninterp spec fn utf8_lossy(bytes: Seq<u8>) -> Seq<char>;

/// `String::from_utf8_lossy`, which decodes UTF-8 and replaces each invalid
/// sequence with U+FFFD. Bytes below 0x80 decode to the characters with the
/// same values.
#[verifier::external_body]
fn lossy_chars(bytes: &[u8]) -> (r: Vec<char>)
    ensures
        r@ == utf8_lossy(bytes@),
        (forall|i: int| 0 <= i < bytes@.len() ==> bytes@[i] < 0x80) ==> r@ == bytes@.map_values(
            |b: u8| b as char,
        ),
{
    String::from_utf8_lossy(bytes).chars().collect()
}

/// The 8.3 name an entry shows: base, then `.` and extension when there is one.
pub open spec fn spec_short_name(raw: Seq<u8>) -> Seq<char> {
    let base = trim_ws_end(utf8_lossy(raw.subrange(0, 8)));
    let ext = trim_ws_end(utf8_lossy(raw.subrange(8, 11)));
    if ext.len() == 0 {
        base
    } else {
        base + seq!['.'] + ext
    }
}

/// Formats the 8.3 name of a raw directory entry.
pub fn short_name(entry: &[u8]) -> (r: String)
    requires
        entry@.len() >= 11,
    ensures
        r@ == spec_short_name(entry@),
{
    let base_bytes = crate::bytes::copy_range(entry, 0, 8);
    let ext_bytes = crate::bytes::copy_range(entry, 8, 11);
    let base = lossy_chars(base_bytes.as_slice());
    let ext = lossy_chars(ext_bytes.as_slice());
    let nb = trimmed_end_len(&base);
    let ne = trimmed_end_len(&ext);
    let mut out = String::new();
    let mut i: usize = 0;
    while i < nb
        invariant
            nb <= base@.len(),
            i <= nb,
            out@ == base@.take(i as int),
        decreases nb - i,
    {
        string_push(&mut out, base[i]);
        assert(base@.take(i + 1) == base@.take(i as int).push(base@[i as int]));
        i = i + 1;
    }
    if ne > 0 {
        string_push(&mut out, '.');
        let ghost prefix = out@;
        let mut j: usize = 0;
        while j < ne
            invariant
                ne <= ext@.len(),
                j <= ne,
                out@ == prefix + ext@.take(j as int),
            decreases ne - j,
        {
            string_push(&mut out, ext[j]);
            assert(ext@.take(j + 1) == ext@.take(j as int).push(ext@[j as int]));
            j = j + 1;
        }
    }
    out
}

/// One step of the short-name checksum: rotate right by one bit, then add.
pub open spec fn checksum_step(sum: u8, byte: u8) -> u8 {
    ((sum / 2 + (sum % 2) * 128 + byte) % 256) as u8
}

/// Checksum over the first `k` bytes of a raw 8.3 name.
pub open spec fn checksum_prefix(raw: Seq<u8>, k: int) -> u8
    decreases k,
{
    if k <= 0 {
        0
    } else {
        checksum_step(checksum_prefix(raw, k - 1), raw[k - 1])
    }
}

/// The long-name checksum of a raw 11-byte 8.3 name.
pub open spec fn spec_short_name_checksum(raw: Seq<u8>) -> u8 {
    checksum_prefix(raw, 11)
}

/// Checksum of the raw 11-byte 8.3 name, per the FAT long-name specification.
pub fn short_name_checksum(entry: &[u8]) -> (r: u8)
    requires
        entry@.len() >= 11,
    ensures
        r == spec_short_name_checksum(entry@),
{
    let mut sum: u8 = 0;
    let mut k: usize = 0;
    while k < 11
        invariant
            k <= 11 <= entry@.len(),
            sum == checksum_prefix(entry@, k as int),
        decreases 11 - k,
    {
        let rotated: u16 = (sum / 2) as u16 + ((sum % 2) as u16) * 128;
        sum = ((rotated + entry[k] as u16) % 256) as u8;
        k = k + 1;
    }
    sum
}

/// The FAT long-name checksum over the first `k` bytes of `raw`, as the
/// specification writes it: starting from zero, each byte is added to the
/// running sum rotated right by one bit, modulo 256.
pub open spec fn fat_rotate_sum(raw: Seq<u8>, k: int) -> u8
    decreases k,
{
    if k <= 0 {
        0
    } else {
        let s = fat_rotate_sum(raw, k - 1);
        ((((s >> 1u8) | (s << 7u8)) as u8) + raw[k - 1]) as u8
    }
}

/// The long-name checksum of an 8.3 name is the specification's
/// rotate-right-and-add sum of its 11 bytes, so a checksum a FAT driver
/// wrote matches the name it belongs to.
pub proof fn lemma_short_name_checksum_is_rotate_sum(raw: Seq<u8>)
    requires
        raw.len() >= 11,
    ensures
        spec_short_name_checksum(raw) == fat_rotate_sum(raw, 11),
{
    lemma_checksum_prefix_rotates(raw, 11);
}

/// Each prefix of the checksum is the rotate-right-and-add sum.
proof fn lemma_checksum_prefix_rotates(raw: Seq<u8>, k: int)
    requires
        0 <= k <= raw.len(),
    ensures
        checksum_prefix(raw, k) == fat_rotate_sum(raw, k),
    decreases k,
{
    if k > 0 {
        lemma_checksum_prefix_rotates(raw, k - 1);
        let s = checksum_prefix(raw, k - 1);
        let b = raw[k - 1];
        assert(((s / 2 + (s % 2) * 128 + b) % 256) as u8 == ((((s >> 1u8) | (s << 7u8)) as u8) + b) as u8)
            by (bit_vector);
    }
}

/// The checksum of the 8.3 name `HELLO   TXT` is 0xF1, the value a FAT
/// driver writes into the long-name entries of `Hello.txt`.
pub proof fn lemma_short_name_checksum_known_vector()
    ensures
        spec_short_name_checksum(seq![0x48u8, 0x45, 0x4C, 0x4C, 0x4F, 0x20, 0x20, 0x20, 0x54, 0x58, 0x54]) == 0xF1,
{
    let raw = seq![0x48u8, 0x45, 0x4C, 0x4C, 0x4F, 0x20, 0x20, 0x20, 0x54, 0x58, 0x54];
    assert(checksum_prefix(raw, 0) == 0);
    assert(raw[0] == 0x48u8);
    assert(raw[1] == 0x45u8);
    assert(raw[2] == 0x4Cu8);
    assert(raw[3] == 0x4Cu8);
    assert(raw[4] == 0x4Fu8);
    assert(raw[5] == 0x20u8);
    assert(raw[6] == 0x20u8);
    assert(raw[7] == 0x20u8);
    assert(raw[8] == 0x54u8);
    assert(raw[9] == 0x58u8);
    assert(raw[10] == 0x54u8);
    assert(checksum_prefix(raw, 1) == 0x48);
    assert(checksum_prefix(raw, 2) == 0x69);
    assert(checksum_prefix(raw, 3) == 0x00);
    assert(checksum_prefix(raw, 4) == 0x4C);
    assert(checksum_prefix(raw, 5) == 0x75);
    assert(checksum_prefix(raw, 6) == 0xDA);
    assert(checksum_prefix(raw, 7) == 0x8D);
    assert(checksum_prefix(raw, 8) == 0xE6);
    assert(checksum_prefix(raw, 9) == 0xC7);
    assert(checksum_prefix(raw, 10) == 0x3B);
    assert(checksum_prefix(raw, 11) == 0xF1);
}

/// Byte offset of the `i`-th UTF-16 unit within a long-name entry.
pub open spec fn lfn_unit_offset(i: int) -> int {
    if i < 5 {
        1 + 2 * i
    } else if i < 11 {
        14 + 2 * (i - 5)
    } else {
        28 + 2 * (i - 11)
    }
}

/// The 13 UTF-16 units a long-name entry carries.
pub open spec fn lfn_units(raw: Seq<u8>) -> Seq<u16> {
    Seq::new(13, |i: int| spec_le_u16(raw, lfn_unit_offset(i)) as u16)
}

/// The state of a long-name assembly: the units gathered so far, in name
/// order, and what the next fragment must carry.
#[verifier::ext_equal]
pub struct LfnModel {
    pub units: Seq<u16>,
    pub checksum: Option<u8>,
    pub expected_next: Option<u8>,
    pub poisoned: bool,
}

/// The empty assembly.
pub open spec fn lfn_reset() -> LfnModel {
    LfnModel { units: Seq::empty(), checksum: None, expected_next: None, poisoned: false }
}

/// The assembly after one more long-name fragment. Fragments arrive highest
/// order first, so each one's units go in front of those gathered so far.
pub open spec fn lfn_push(st: LfnModel, raw: Seq<u8>) -> LfnModel {
    let order_byte = raw[0];
    let order = order_byte & LFN_ORDER_MASK;
    let checksum = raw[13];
    if order == 0 || order > LFN_MAX_ORDER {
        LfnModel { poisoned: true, ..st }
    } else if order_byte & LFN_LAST_MASK != 0 {
        LfnModel {
            units: lfn_units(raw),
            checksum: Some(checksum),
            expected_next: Some((order - 1) as u8),
            poisoned: false,
        }
    } else if st.expected_next == Some(order) && st.checksum == Some(checksum) {
        LfnModel {
            units: lfn_units(raw) + st.units,
            expected_next: Some((order - 1) as u8),
            ..st
        }
    } else {
        LfnModel { poisoned: true, ..st }
    }
}

/// `units` up to its first NUL or 0xFFFF padding unit.
pub open spec fn until_terminator(units: Seq<u16>) -> Seq<u16>
    decreases units.len(),
{
    if units.len() == 0 {
        units
    } else if units[0] == 0 || units[0] == 0xFFFF {
        Seq::empty()
    } else {
        seq![units[0]] + until_terminator(units.drop_first())
    }
}

/// The long name an assembly yields for the 8.3 entry `short`, as scalar
/// values: only a complete, contiguous, checksum-matched set with a valid
/// UTF-16 name gives one.
pub open spec fn lfn_assemble(st: LfnModel, short: Seq<u8>) -> Option<Seq<u32>> {
    if st.poisoned || st.expected_next != Some(0u8) || st.checksum != Some(
        spec_short_name_checksum(short),
    ) {
        None
    } else {
        let units = until_terminator(st.units);
        if units.len() == 0 {
            None
        } else {
            match utf16_scalars(units) {
                Some(name) => if name.contains(0u32) {
                    None
                } else {
                    Some(name)
                },
                None => None,
            }
        }
    }
}

/// A long name is given to an 8.3 entry only after a complete, unbroken run
/// of fragments carrying that entry's checksum: no corrupted or foreign run
/// can graft a name onto it.
pub proof fn lemma_long_name_needs_matching_set(st: LfnModel, short: Seq<u8>)
    ensures
        lfn_assemble(st, short) is Some ==> !st.poisoned && st.expected_next == Some(0u8) && st.checksum == Some(
            spec_short_name_checksum(short),
        ),
{
}

/// Accumulates long-name fragments, which precede their 8.3 entry in reverse
/// order. Any ordering, checksum or encoding violation discards the set, so a
/// corrupted run can never graft a name onto an unrelated entry.
pub struct LfnAssembler {
    units: Vec<u16>,
    checksum: Option<u8>,
    expected_next: Option<u8>,
    poisoned: bool,
}

impl LfnAssembler {
    /// The assembly state.
    pub closed spec fn model(&self) -> LfnModel {
        LfnModel {
            units: self.units@,
            checksum: self.checksum,
            expected_next: self.expected_next,
            poisoned: self.poisoned,
        }
    }

    /// An empty assembler.
    pub fn new() -> (a: LfnAssembler)
        ensures
            a.model() == lfn_reset(),
    {
        LfnAssembler { units: Vec::new(), checksum: None, expected_next: None, poisoned: false }
    }

    /// Discards any pending fragments.
    pub fn reset(&mut self)
        ensures
            final(self).model() == lfn_reset(),
    {
        self.units.clear();
        self.checksum = None;
        self.expected_next = None;
        self.poisoned = false;
    }

    /// Adds one 32-byte long-name fragment.
    pub fn push(&mut self, raw: &[u8])
        requires
            raw@.len() == 32,
        ensures
            final(self).model() == lfn_push(old(self).model(), raw@),
    {
        let order_byte = raw[0];
        let is_last = order_byte & LFN_LAST_MASK != 0;
        let order = order_byte & LFN_ORDER_MASK;
        let checksum = raw[13];
        if order == 0 || order > LFN_MAX_ORDER {
            self.poisoned = true;
            return;
        }
        let mut units = lfn_units_of(raw);
        if is_last {
            self.poisoned = false;
            self.checksum = Some(checksum);
        } else {
            let ok = match (self.expected_next, self.checksum) {
                (Some(expected), Some(prev)) => expected == order && prev == checksum,
                _ => false,
            };
            if !ok {
                self.poisoned = true;
                return;
            }
            let mut k: usize = 0;
            let ghost head = units@;
            while k < self.units.len()
                invariant
                    k <= self.units@.len(),
                    units@ == head + self.units@.take(k as int),
                decreases self.units@.len() - k,
            {
                units.push(self.units[k]);
                assert(self.units@.take(k + 1) == self.units@.take(k as int).push(self.units@[k as int]));
                k = k + 1;
            }
            assert(self.units@.take(k as int) == self.units@);
        }
        self.units = units;
        self.expected_next = Some(order - 1);
    }

    /// Returns the assembled name for `short_entry` and resets the assembler.
    pub fn take(&mut self, short_entry: &[u8]) -> (r: Option<String>)
        requires
            short_entry@.len() >= 11,
        ensures
            final(self).model() == lfn_reset(),
            lfn_assemble(old(self).model(), short_entry@) == match r {
                Some(s) => Some(scalars(s@)),
                None => None::<Seq<u32>>,
            },
    {
        let result = self.assemble(short_entry);
        self.reset();
        result
    }

    /// Returns the assembled name only if the set is complete, contiguous and
    /// matches the short entry's checksum.
    #[verifier::loop_isolation(false)]
    pub fn assemble(&self, short_entry: &[u8]) -> (r: Option<String>)
        requires
            short_entry@.len() >= 11,
        ensures
            lfn_assemble(self.model(), short_entry@) == match r {
                Some(s) => Some(scalars(s@)),
                None => None::<Seq<u32>>,
            },
    {
        if self.poisoned {
            return None;
        }
        match self.expected_next {
            Some(0) => {},
            _ => return None,
        }
        match self.checksum {
            Some(c) => {
                if c != short_name_checksum(short_entry) {
                    return None;
                }
            },
            None => return None,
        }
        // Names are NUL-terminated and padded with 0xFFFF.
        let mut end: usize = 0;
        while end < self.units.len() && self.units[end] != 0 && self.units[end] != 0xFFFF
            invariant
                end <= self.units@.len(),
                forall|t: int| 0 <= t < end ==> self.units@[t] != 0 && self.units@[t] != 0xFFFF,
            decreases self.units@.len() - end,
        {
            end = end + 1;
        }
        let units = crate::bytes::copy_range(self.units.as_slice(), 0, end);
        proof {
            lemma_until_terminator_split(
                units@,
                self.units@.subrange(end as int, self.units@.len() as int),
            );
            assert(self.units@ == units@ + self.units@.subrange(end as int, self.units@.len() as int));
            if end < self.units@.len() {
                assert(until_terminator(self.units@.subrange(end as int, self.units@.len() as int))
                    == Seq::<u16>::empty());
            } else {
                assert(self.units@.subrange(end as int, self.units@.len() as int) == Seq::<u16>::empty());
            }
            assert(units@ + Seq::<u16>::empty() == units@);
        }
        if units.len() == 0 {
            return None;
        }
        let chars = match decode_utf16(units.as_slice()) {
            Some(c) => c,
            None => return None,
        };
        let mut i: usize = 0;
        while i < chars.len()
            invariant
                i <= chars@.len(),
                forall|t: int| 0 <= t < i ==> scalars(chars@)[t] != 0u32,
            decreases chars@.len() - i,
        {
            if chars[i] as u32 == 0 {
                assert(scalars(chars@)[i as int] == 0u32);
                assert(scalars(chars@).contains(0u32));
                assert(utf16_scalars(units@) == Some(scalars(chars@)));
                return None;
            }
            i = i + 1;
        }
        assert(!scalars(chars@).contains(0u32));
        Some(string_from_chars(&chars))
    }
}

/// A prefix free of terminators followed by more units terminates where the
/// rest does.
pub proof fn lemma_until_terminator_split(a: Seq<u16>, b: Seq<u16>)
    requires
        forall|i: int| 0 <= i < a.len() ==> a[i] != 0 && a[i] != 0xFFFF,
    ensures
        until_terminator(a + b) == a + until_terminator(b),
    decreases a.len(),
{
    if a.len() > 0 {
        assert((a + b).drop_first() == a.drop_first() + b);
        lemma_until_terminator_split(a.drop_first(), b);
        assert(a == seq![a[0]] + a.drop_first());
    } else {
        assert(a + b == b);
    }
}

/// The 13 UTF-16 units of a long-name entry.
pub fn lfn_units_of(raw: &[u8]) -> (units: Vec<u16>)
    requires
        raw@.len() == 32,
    ensures
        units@ == lfn_units(raw@),
{
    let mut units: Vec<u16> = Vec::new();
    let mut i: usize = 0;
    while i < 13
        invariant
            i <= 13,
            raw@.len() == 32,
            units@ == lfn_units(raw@).take(i as int),
        decreases 13 - i,
    {
        let offset: usize = if i < 5 {
            1 + 2 * i
        } else if i < 11 {
            14 + 2 * (i - 5)
        } else {
            28 + 2 * (i - 11)
        };
        units.push(le_u16(raw, offset));
        assert(lfn_units(raw@).take(i + 1) == lfn_units(raw@).take(i as int).push(
            lfn_units(raw@)[i as int],
        ));
        i = i + 1;
    }
    assert(lfn_units(raw@).take(13) == lfn_units(raw@));
    units
}

/// The raw 32-byte slot `i` of a directory buffer.
pub open spec fn slot(data: Seq<u8>, i: int) -> Seq<u8> {
    data.subrange(32 * i, 32 * i + 32)
}

/// The entries a directory buffer yields from slot `i` on: each entry's raw
/// 32-byte slot with the long name assembled for it.
pub open spec fn dir_scan(data: Seq<u8>, include_deleted: bool, i: int, st: LfnModel) -> Seq<
    (Seq<u8>, Option<Seq<u32>>),
>
    decreases data.len() / 32 - i,
{
    if i < 0 || i >= data.len() / 32 {
        Seq::empty()
    } else {
        let raw = slot(data, i);
        if raw[0] == END_OF_DIRECTORY {
            Seq::empty()
        } else if raw[11] == LFN_ATTR {
            if raw[0] == DELETED {
                dir_scan(data, include_deleted, i + 1, lfn_reset())
            } else {
                dir_scan(data, include_deleted, i + 1, lfn_push(st, raw))
            }
        } else if raw[11] & 0x08 != 0 {
            dir_scan(data, include_deleted, i + 1, lfn_reset())
        } else {
            let rest = dir_scan(data, include_deleted, i + 1, lfn_reset());
            if raw[0] == DELETED && !include_deleted {
                rest
            } else {
                seq![(raw, lfn_assemble(st, raw))] + rest
            }
        }
    }
}

/// Whether `e` is the entry that short entry `raw` describes, with long name
/// `long`.
pub open spec fn entry_matches(e: DirectoryEntry, raw: Seq<u8>, long: Option<Seq<u32>>) -> bool {
    &&& e.short_name@ == spec_short_name(raw)
    &&& e.attributes == raw[11]
    &&& e.first_cluster == spec_le_u16(raw, 20) * 65536 + spec_le_u16(raw, 26)
    &&& e.size == spec_le_u32(raw, 28)
    &&& e.deleted == (raw[0] == DELETED)
    &&& match (e.long_name, long) {
        (Some(n), Some(l)) => scalars(n@) == l,
        (None, None) => true,
        _ => false,
    }
}

/// Whether `out` lists exactly the entries `scan` describes.
pub open spec fn entries_follow(out: Seq<DirectoryEntry>, scan: Seq<(Seq<u8>, Option<Seq<u32>>)>) -> bool {
    &&& out.len() == scan.len()
    &&& forall|k: int| 0 <= k < out.len() ==> entry_matches(#[trigger] out[k], scan[k].0, scan[k].1)
}

/// What a directory scan yields, entry by entry: each from a slot of the
/// buffer that is not the end marker, neither a long-name fragment nor a
/// volume label, a deleted one only when deleted entries are asked for, and
/// each long name only after an unbroken run of fragments carrying the
/// entry's checksum.
pub proof fn lemma_dir_scan_entries(data: Seq<u8>, include_deleted: bool, i: int, st: LfnModel)
    ensures
        ({
            let scan = dir_scan(data, include_deleted, i, st);
            forall|k: int|
                0 <= k < scan.len() ==> {
                    let raw = (#[trigger] scan[k]).0;
                    &&& exists|q: int| i <= q < data.len() / 32 && raw == slot(data, q)
                    &&& raw[0] != END_OF_DIRECTORY
                    &&& raw[11] != LFN_ATTR
                    &&& raw[11] & 0x08 == 0
                    &&& raw[0] == DELETED ==> include_deleted
                    &&& scan[k].1 is Some ==> exists|run: LfnModel|
                        !run.poisoned && run.expected_next == Some(0u8) && run.checksum == Some(
                            spec_short_name_checksum(raw),
                        ) && #[trigger] lfn_assemble(run, raw) == scan[k].1
                }
        }),
    decreases data.len() / 32 - i,
{
    if 0 <= i < data.len() / 32 {
        let raw = slot(data, i);
        if raw[0] != END_OF_DIRECTORY {
            if raw[11] == LFN_ATTR {
                if raw[0] == DELETED {
                    lemma_dir_scan_entries(data, include_deleted, i + 1, lfn_reset());
                } else {
                    lemma_dir_scan_entries(data, include_deleted, i + 1, lfn_push(st, raw));
                }
            } else if raw[11] & 0x08 != 0 {
                lemma_dir_scan_entries(data, include_deleted, i + 1, lfn_reset());
            } else {
                lemma_dir_scan_entries(data, include_deleted, i + 1, lfn_reset());
                let rest = dir_scan(data, include_deleted, i + 1, lfn_reset());
                let scan = dir_scan(data, include_deleted, i, st);
                if !(raw[0] == DELETED && !include_deleted) {
                    assert(scan == seq![(raw, lfn_assemble(st, raw))] + rest);
                    assert forall|k: int| 0 <= k < scan.len() implies {
                        let r = (#[trigger] scan[k]).0;
                        &&& exists|q: int| i <= q < data.len() / 32 && r == slot(data, q)
                        &&& r[0] != END_OF_DIRECTORY
                        &&& r[11] != LFN_ATTR
                        &&& r[11] & 0x08 == 0
                        &&& r[0] == DELETED ==> include_deleted
                        &&& scan[k].1 is Some ==> exists|run: LfnModel|
                            !run.poisoned && run.expected_next == Some(0u8) && run.checksum == Some(
                                spec_short_name_checksum(r),
                            ) && #[trigger] lfn_assemble(run, r) == scan[k].1
                    } by {
                        if k == 0 {
                            lemma_long_name_needs_matching_set(st, raw);
                        } else {
                            assert(scan[k] == rest[k - 1]);
                        }
                    }
                }
            }
        }
    }
}

/// Parses one cluster's worth of directory entries, appending them to
/// `entries`. Deleted entries are kept only when `include_deleted` is set.
pub fn parse_directory_bytes(data: &[u8], include_deleted: bool, entries: &mut Vec<DirectoryEntry>)
    ensures
        final(entries)@.len() >= old(entries)@.len(),
        final(entries)@.take(old(entries)@.len() as int) == old(entries)@,
        entries_follow(
            final(entries)@.skip(old(entries)@.len() as int),
            dir_scan(data@, include_deleted, 0, lfn_reset()),
        ),
{
    let ghost start_len = entries@.len();
    let ghost total = dir_scan(data@, include_deleted, 0, lfn_reset());
    let mut lfn = LfnAssembler::new();
    let n = data.len() / 32;
    assert(32 * n <= data@.len());
    let mut i: usize = 0;
    let ghost mut produced: Seq<(Seq<u8>, Option<Seq<u32>>)> = Seq::empty();
    assert(Seq::<(Seq<u8>, Option<Seq<u32>>)>::empty() + total == total);
    assert(entries@.skip(start_len as int) == Seq::<DirectoryEntry>::empty());
    while i < n
        invariant
            n == data@.len() / 32,
            32 * n <= data.len(),
            i <= n,
            entries@.len() == start_len + produced.len(),
            entries@.take(start_len as int) == old(entries)@,
            entries_follow(entries@.skip(start_len as int), produced),
            produced + dir_scan(data@, include_deleted, i as int, lfn.model()) == total,
        ensures
            entries@.len() == start_len + produced.len(),
            entries@.take(start_len as int) == old(entries)@,
            entries_follow(entries@.skip(start_len as int), produced),
            produced == total,
        decreases n - i,
    {
        let raw = crate::bytes::copy_range(data, 32 * i, 32 * i + 32);
        assert(raw@ == slot(data@, i as int));
        if raw[0] == END_OF_DIRECTORY {
            assert(produced + Seq::<(Seq<u8>, Option<Seq<u32>>)>::empty() == produced);
            break;
        }
        proof {
            if i + 1 == n {
                assert(dir_scan(data@, include_deleted, i + 1, lfn_reset()) == Seq::<
                    (Seq<u8>, Option<Seq<u32>>),
                >::empty());
            }
        }
        let deleted = raw[0] == DELETED;
        let attr = raw[11];
        if attr == LFN_ATTR {
            if deleted {
                lfn.reset();
            } else {
                lfn.push(raw.as_slice());
            }
            i = i + 1;
            continue;
        }
        if attr & 0x08 != 0 {
            lfn.reset();
            i = i + 1;
            continue;
        }
        let ghost st = lfn.model();
        let long_name = lfn.take(raw.as_slice());
        if deleted && !include_deleted {
            i = i + 1;
            continue;
        }
        let high = le_u16(raw.as_slice(), 20) as u32;
        let low = le_u16(raw.as_slice(), 26) as u32;
        let entry = DirectoryEntry {
            short_name: short_name(raw.as_slice()),
            attributes: attr,
            first_cluster: high * 65536 + low,
            size: le_u32(raw.as_slice(), 28),
            deleted,
            long_name,
        };
        let ghost item = (raw@, lfn_assemble(st, raw@));
        assert(entry_matches(entry, item.0, item.1));
        let ghost old_entries = entries@;
        entries.push(entry);
        proof {
            assert(entries@ == old_entries.push(entry));
            assert(entries@.take(start_len as int) == old_entries.take(start_len as int));
            assert(entries@.skip(start_len as int) == old_entries.skip(start_len as int).push(
                entry,
            ));
            let newp = produced.push(item);
            assert(produced + (seq![item] + dir_scan(data@, include_deleted, i + 1, lfn_reset()))
                == newp + dir_scan(data@, include_deleted, i + 1, lfn_reset()));
            produced = newp;
            let out = entries@.skip(start_len as int);
            assert forall|k: int| 0 <= k < out.len() implies entry_matches(
                #[trigger] out[k],
                produced[k].0,
                produced[k].1,
            ) by {
                if k < out.len() - 1 {
                    assert(out[k] == old_entries.skip(start_len as int)[k]);
                }
            }
        }
        i = i + 1;
    }
}

/// Entries that follow two scans, one after the other, follow their
/// concatenation.
pub proof fn lemma_entries_follow_append(
    before: Seq<DirectoryEntry>,
    after: Seq<DirectoryEntry>,
    a: Seq<(Seq<u8>, Option<Seq<u32>>)>,
    b: Seq<(Seq<u8>, Option<Seq<u32>>)>,
)
    requires
        entries_follow(before, a),
        after.len() >= before.len(),
        after.take(before.len() as int) == before,
        entries_follow(after.skip(before.len() as int), b),
    ensures
        entries_follow(after, a + b),
{
    assert forall|k: int| 0 <= k < after.len() implies entry_matches(
        #[trigger] after[k],
        (a + b)[k].0,
        (a + b)[k].1,
    ) by {
        if k < before.len() {
            assert(after[k] == after.take(before.len() as int)[k]);
        } else {
            assert(after[k] == after.skip(before.len() as int)[k - before.len()]);
        }
    }
}

/// Whether a directory cluster holds an end-of-directory slot.
pub open spec fn has_end_marker(data: Seq<u8>) -> bool {
    exists|k: int| 0 <= k < data.len() / 32 && #[trigger] slot_tag(data, k) == END_OF_DIRECTORY
}

/// The first byte of slot `k`.
pub open spec fn slot_tag(data: Seq<u8>, k: int) -> u8 {
    data[32 * k]
}

/// The bytes of `cluster` in a volume starting at `start`.
pub open spec fn cluster_data(v: Fat32Volume, contents: Seq<u8>, start: int, cluster: u32) -> Seq<
    u8,
> {
    let offset = v.spec_cluster_offset(start, cluster);
    contents.subrange(offset, offset + v.bytes_per_sector * v.sectors_per_cluster)
}

/// The entries a directory spread over `chain` yields: the clusters are read
/// in order up to and including the first one that ends the directory.
pub open spec fn chain_scan(
    v: Fat32Volume,
    contents: Seq<u8>,
    start: int,
    chain: Seq<u32>,
    include_deleted: bool,
) -> Seq<(Seq<u8>, Option<Seq<u32>>)>
    decreases chain.len(),
{
    if chain.len() == 0 {
        Seq::empty()
    } else {
        let data = cluster_data(v, contents, start, chain[0]);
        let here = dir_scan(data, include_deleted, 0, lfn_reset());
        if has_end_marker(data) {
            here
        } else {
            here + chain_scan(v, contents, start, chain.drop_first(), include_deleted)
        }
    }
}

/// Whether a buffer holds an end-of-directory slot.
fn end_marker_in(data: &[u8]) -> (r: bool)
    ensures
        r == has_end_marker(data@),
{
    let n = data.len() / 32;
    assert(32 * n <= data@.len());
    let mut k: usize = 0;
    while k < n
        invariant
            n == data@.len() / 32,
            32 * n <= data.len(),
            k <= n,
            forall|t: int| 0 <= t < k ==> #[trigger] slot_tag(data@, t) != END_OF_DIRECTORY,
        decreases n - k,
    {
        if data[32 * k] == END_OF_DIRECTORY {
            assert(slot_tag(data@, k as int) == END_OF_DIRECTORY);
            return true;
        }
        k = k + 1;
    }
    false
}

/// Every data cluster of a valid volume lies inside the volume.
proof fn lemma_heap_cluster_fits(b: Seq<u8>, len: int, start: int, c: u32)
    requires
        fat32_boot_valid(b, len),
        fat32_volume_of(b).in_heap(c),
    ensures
        ({
            let v = fat32_volume_of(b);
            let k = (c - 2) * v.sectors_per_cluster;
            &&& 0 <= k
            &&& v.first_data_sector + k + v.sectors_per_cluster <= boot_total_sectors(b)
            &&& (v.first_data_sector + k) * v.bytes_per_sector + v.bytes_per_sector * v.sectors_per_cluster <= len
            &&& v.spec_cluster_offset(start, c) + v.bytes_per_sector * v.sectors_per_cluster <= start + len
        }),
{
    let v = fat32_volume_of(b);
    let spc = v.sectors_per_cluster as int;
    let bps = v.bytes_per_sector as int;
    let fds = v.first_data_sector as int;
    let total = boot_total_sectors(b);
    let n = v.cluster_count as int;
    let cc = c as int;
    assert(spc > 0);
    assert(n == (total - fds) / spc);
    assert(n * spc <= total - fds) by (nonlinear_arith)
        requires
            n == (total - fds) / spc,
            spc > 0,
            total - fds > 0,
    ;
    assert((cc - 2) * spc + spc <= n * spc) by (nonlinear_arith)
        requires
            2 <= cc < n + 2,
            spc > 0,
    ;
    assert(0 <= (cc - 2) * spc) by (nonlinear_arith)
        requires
            2 <= cc,
            spc > 0,
    ;
    let k = (cc - 2) * spc;
    assert((fds + k) * bps + bps * spc <= total * bps) by (nonlinear_arith)
        requires
            fds + k + spc <= total,
            bps > 0,
    ;
}

/// Reads the root directory: every entry of every cluster of the root chain,
/// stopping after the cluster that ends the directory.
pub fn read_root_entries<D: BlockDevice>(
    device: &D,
    volume_range: ByteRange,
    include_deleted: bool,
) -> (r: RecoveryResult<Vec<DirectoryEntry>>)
    ensures
        r matches Ok(entries) ==> {
            let boot = span(device, volume_range.offset as int, 512);
            let v = fat32_volume_of(boot);
            &&& volume_range.within(device.contents().len() as int)
            &&& volume_range.length >= 512
            &&& fat32_boot_valid(boot, volume_range.length as int)
            &&& v.bytes_per_sector * v.sectors_per_cluster <= MAX_METADATA_CLUSTER_SIZE
            &&& exists|chain: Seq<u32>|
                #![trigger v.is_chain(device.contents(), volume_range.offset as int, chain)]
                chain[0] == v.root_cluster && v.is_chain(
                    device.contents(),
                    volume_range.offset as int,
                    chain,
                ) && entries_follow(
                    entries@,
                    chain_scan(v, device.contents(), volume_range.offset as int, chain, include_deleted),
                )
        },
        ({
            let boot = span(device, volume_range.offset as int, 512);
            let v = fat32_volume_of(boot);
            &&& readable(device)
            &&& volume_range.within(device.contents().len() as int)
            &&& volume_range.length >= 512
            &&& fat32_boot_valid(boot, volume_range.length as int)
            &&& v.bytes_per_sector * v.sectors_per_cluster <= MAX_METADATA_CLUSTER_SIZE
            &&& exists|w: Seq<u32>| #[trigger] v.walkable_chain(device.contents(), volume_range, v.root_cluster, w)
        }) ==> r is Ok,
{
    let volume = parse_volume(device, volume_range)?;
    let cluster_size = volume.cluster_size()?;
    if cluster_size > MAX_METADATA_CLUSTER_SIZE {
        return Err(io_error("FAT32 cluster exceeds metadata read limit"));
    }
    let chain = volume.cluster_chain(device, volume_range, volume.root_cluster)?;
    let volume_end = volume_range.end()?;
    let ghost contents = device.contents();
    let ghost start = volume_range.offset as int;
    let ghost total = chain_scan(volume, contents, start, chain@, include_deleted);
    let ghost boot = span(device, volume_range.offset as int, 512);
    let ghost owed = readable(device) && fat32_boot_valid(boot, volume_range.length as int);
    let mut entries: Vec<DirectoryEntry> = Vec::new();
    let mut idx: usize = 0;
    let mut ended = false;
    let ghost mut produced: Seq<(Seq<u8>, Option<Seq<u32>>)> = Seq::empty();
    assert(chain@.skip(0) == chain@);
    assert(Seq::<(Seq<u8>, Option<Seq<u32>>)>::empty() + total == total);
    while idx < chain.len() && !ended
        invariant
            idx <= chain@.len(),
            cluster_size == volume.bytes_per_sector * volume.sectors_per_cluster,
            contents == device.contents(),
            start == volume_range.offset,
            total == chain_scan(volume, contents, start, chain@, include_deleted),
            !ended ==> total == produced + chain_scan(
                volume,
                contents,
                start,
                chain@.skip(idx as int),
                include_deleted,
            ),
            ended ==> total == produced,
            entries_follow(entries@, produced),
            boot == span(device, volume_range.offset as int, 512),
            owed == (readable(device) && fat32_boot_valid(boot, volume_range.length as int)),
            owed ==> volume == fat32_volume_of(boot),
            volume.is_chain(contents, start, chain@),
            volume_end == volume_range.spec_end(),
            volume_range.within(device.contents().len() as int),
        decreases chain@.len() - idx + (if ended { 0int } else { 1int }),
    {
        let cluster = chain[idx];
        proof {
            if owed {
                assert(volume.in_heap(chain@[idx as int]));
                lemma_heap_cluster_fits(boot, volume_range.length as int, start, cluster);
            }
        }
        let offset = volume.cluster_offset(volume_range.offset, cluster)?;
        let range = ByteRange::new(offset, cluster_size)?;
        if range.end()? > volume_end {
            return Err(io_error("directory cluster outside volume"));
        }
        let data = read_exact(device, offset, cluster_size)?;
        let ghost old_entries = entries@;
        let ghost here = dir_scan(data@, include_deleted, 0, lfn_reset());
        parse_directory_bytes(data.as_slice(), include_deleted, &mut entries);
        let has_end = end_marker_in(data.as_slice());
        proof {
            let rest = chain@.skip(idx as int);
            assert(rest[0] == cluster);
            assert(rest.drop_first() == chain@.skip(idx + 1));
            assert(data@ == cluster_data(volume, contents, start, cluster));
            lemma_entries_follow_append(old_entries, entries@, produced, here);
            if has_end {
                assert(total == produced + here);
            } else {
                assert(total == (produced + here) + chain_scan(
                    volume,
                    contents,
                    start,
                    chain@.skip(idx + 1),
                    include_deleted,
                ));
            }
            produced = produced + here;
        }
        if has_end {
            ended = true;
        } else {
            idx = idx + 1;
        }
    }
    proof {
        if !ended {
            assert(chain@.skip(idx as int) == Seq::<u32>::empty());
            assert(produced + Seq::<(Seq<u8>, Option<Seq<u32>>)>::empty() == produced);
        }
    }
    Ok(entries)
}

} // verus!
