//! exFAT directory entry sets.
//!
//! A file is described by a set of 32-byte entries: a File entry, a Stream
//! Extension entry, and one or more File Name entries. A set is reconstructed
//! only when its structure and checksum agree; an invalid set is retained as
//! diagnostic evidence rather than silently treated as valid.

use std::collections::BTreeSet;
use vstd::prelude::*;
use crate::bytes::{le_u16, le_u32, le_u64, spec_le_u16, spec_le_u32, spec_le_u64};
use crate::device::{read_exact, readable, span, BlockDevice};
use crate::fat32::lemma_push_fresh;
use crate::exfat::boot::{ExfatVolume, FIRST_CLUSTER};
use crate::range::{io_error, ByteRange, RecoveryError, RecoveryResult};
use crate::text::string_from_chars;
use crate::unicode::{decode_utf16, lemma_utf16_width, scalars, utf16_scalars, utf16_width};

verus! {

broadcast use vstd::laws_cmp::group_laws_cmp;

pub const ENTRY_SIZE: usize = 32;
pub const TYPE_END_OF_DIRECTORY: u8 = 0x00;
pub const TYPE_BITMAP: u8 = 0x81;
pub const TYPE_UPCASE: u8 = 0x82;
pub const TYPE_VOLUME_LABEL: u8 = 0x83;
pub const TYPE_FILE: u8 = 0x85;
pub const TYPE_STREAM: u8 = 0xC0;
pub const TYPE_FILE_NAME: u8 = 0xC1;
/// Bit 7 of the entry type marks an entry as in use; deletion clears it.
pub const IN_USE_MASK: u8 = 0x80;
/// The type bits of an entry, without the in-use flag.
pub const TYPE_BITS: u8 = 0x7F;
pub const ATTR_DIRECTORY: u16 = 0x0010;
/// Characters carried by one File Name entry.
pub const NAME_CHARS_PER_ENTRY: usize = 15;
/// exFAT caps a name at 255 characters, so at most 17 name entries.
pub const MAX_NAME_ENTRIES: u8 = 17;
/// A directory is never traversed for more clusters than this.
pub const MAX_DIRECTORY_CLUSTERS: usize = 65536;
/// The FAT value that ends a chain.
pub const EXFAT_END_OF_CHAIN: u32 = 0xFFFF_FFFF;
/// The FAT value that marks a bad cluster.
pub const EXFAT_BAD_CLUSTER: u32 = 0xFFFF_FFF7;

/// Why an entry set was rejected. Retained as evidence.
#[derive(Clone, Debug, PartialEq, Eq)]
pub enum EntrySetError {
    /// Secondary count disagrees with the entries actually present.
    SecondaryCountMismatch { declared: u8, found: u8 },
    /// The set checksum does not match its entries.
    ChecksumMismatch { declared: u16, computed: u16 },
    /// A File entry was not followed by a Stream Extension entry.
    MissingStream,
    /// The name entries did not supply the declared number of characters.
    NameLengthMismatch { declared: u8, found: usize },
    /// The name contained an unpaired surrogate or a forbidden character.
    InvalidName,
    /// Secondary count exceeds what exFAT permits.
    SecondaryCountOutOfRange { declared: u8 },
}

/// A parsed exFAT directory entry.
#[derive(Clone, Debug, PartialEq, Eq)]
pub struct DirectoryEntry {
    pub name: String,
    pub attributes: u16,
    pub first_cluster: u32,
    pub data_length: u64,
    /// Bytes actually allocated, which may exceed `data_length`.
    pub valid_data_length: u64,
    /// True when the stream is contiguous and the FAT need not be followed.
    pub no_fat_chain: bool,
    /// True when the entry set was marked not-in-use, i.e. deleted.
    pub deleted: bool,
}

impl DirectoryEntry {
    /// Whether the entry describes a directory.
    pub fn is_directory(&self) -> (r: bool)
        ensures
            r == (self.attributes & ATTR_DIRECTORY != 0),
    {
        self.attributes & ATTR_DIRECTORY != 0
    }
}

impl ExfatVolume {
    /// The value stored in `cluster`'s FAT entry.
    pub open spec fn spec_link(&self, contents: Seq<u8>, start: int, cluster: u32) -> u32 {
        spec_le_u32(contents, self.spec_fat_entry_offset(start, cluster)) as u32
    }

    /// Whether `chain` is a cluster chain of this volume: each link leads to
    /// the next element and the last element ends the chain.
    pub open spec fn is_chain(&self, contents: Seq<u8>, start: int, chain: Seq<u32>) -> bool {
        &&& chain.len() > 0
        &&& forall|i: int|
            0 <= i < chain.len() ==> FIRST_CLUSTER <= #[trigger] chain[i]
                < self.spec_cluster_limit()
        &&& forall|i: int|
            #![trigger chain[i]]
            0 <= i < chain.len() - 1 ==> self.spec_link(contents, start, chain[i]) == chain[i + 1]
        &&& self.spec_link(contents, start, chain.last()) == EXFAT_END_OF_CHAIN
        &&& chain.no_duplicates()
    }

    /// Whether `cluster`'s FAT entry lies inside the declared FAT, the volume
    /// `range` and the source, with offsets that fit a `u64`, and holds an
    /// end mark or a link to a heap cluster.
    pub open spec fn link_readable(&self, contents: Seq<u8>, range: ByteRange, cluster: u32) -> bool {
        let off = self.spec_fat_entry_offset(range.offset as int, cluster);
        let link = self.spec_link(contents, range.offset as int, cluster);
        &&& FIRST_CLUSTER <= cluster < self.spec_cluster_limit()
        &&& self.fat_offset_sectors * self.bytes_per_sector <= u64::MAX
        &&& self.fat_length_sectors * self.bytes_per_sector <= u64::MAX
        &&& cluster * 4 + 4 <= self.fat_length_sectors * self.bytes_per_sector
        &&& off + 4 <= u64::MAX
        &&& range.spec_end() <= u64::MAX
        &&& off + 4 <= range.spec_end()
        &&& off + 4 <= contents.len()
        &&& link == EXFAT_END_OF_CHAIN || (link != EXFAT_BAD_CLUSTER && FIRST_CLUSTER <= link < self.spec_cluster_limit())
    }

    /// The longest chain a walk follows.
    pub open spec fn chain_limit(&self) -> int {
        if self.cluster_count < usize::MAX {
            self.cluster_count as int
        } else {
            usize::MAX - 1
        }
    }

    /// Whether `chain` is the chain from `start`, within the walk's limit,
    /// with every FAT entry on it readable.
    #[verifier::opaque]
    pub open spec fn walkable_chain(&self, contents: Seq<u8>, range: ByteRange, start: u32, chain: Seq<u32>) -> bool {
        &&& self.is_chain(contents, range.offset as int, chain)
        &&& chain[0] == start
        &&& chain.len() <= self.chain_limit() + 1
        &&& forall|i: int| 0 <= i < chain.len() ==> #[trigger] self.link_readable(contents, range, chain[i])
    }

    proof fn lemma_walk_basic(&self, contents: Seq<u8>, range: ByteRange, start: u32, w: Seq<u32>)
        requires
            self.walkable_chain(contents, range, start, w),
        ensures
            0 < w.len() <= self.chain_limit() + 1,
            w[0] == start,
            FIRST_CLUSTER <= start < self.spec_cluster_limit(),
    {
        reveal(ExfatVolume::walkable_chain);
    }

    proof fn lemma_walk_fresh(&self, contents: Seq<u8>, range: ByteRange, start: u32, w: Seq<u32>, n: int)
        requires
            self.walkable_chain(contents, range, start, w),
            0 <= n < w.len(),
        ensures
            !w.take(n).contains(w[n]),
            self.link_readable(contents, range, w[n]),
    {
        reveal(ExfatVolume::walkable_chain);
        if w.take(n).contains(w[n]) {
            let k = choose|k: int| 0 <= k < n && w.take(n)[k] == w[n];
            assert(w[k] == w[n]);
        }
    }

    /// A chain from `start` whose later clusters are not the end mark is a
    /// prefix of every walkable chain from `start`.
    pub proof fn lemma_chain_prefix(&self, contents: Seq<u8>, range: ByteRange, start: u32, c: Seq<u32>, w: Seq<u32>)
        requires
            self.is_chain(contents, range.offset as int, c),
            c[0] == start,
            forall|k: int| 1 <= k < c.len() ==> #[trigger] c[k] != EXFAT_END_OF_CHAIN,
            self.walkable_chain(contents, range, start, w),
        ensures
            c.len() <= w.len(),
            c == w.take(c.len() as int),
    {
        reveal(ExfatVolume::walkable_chain);
        assert forall|k: int| 0 <= k < c.len() implies k < w.len() && #[trigger] c[k] == w[k] by {
            self.lemma_prefix_at(contents, range, start, c, w, k);
        }
    }

    /// A chain from `start` whose later clusters are not the end mark is the
    /// walkable chain from `start`, when that one's are not either.
    pub proof fn lemma_chain_full(&self, contents: Seq<u8>, range: ByteRange, start: u32, c: Seq<u32>, w: Seq<u32>)
        requires
            self.is_chain(contents, range.offset as int, c),
            c[0] == start,
            forall|k: int| 1 <= k < c.len() ==> #[trigger] c[k] != EXFAT_END_OF_CHAIN,
            self.walkable_chain(contents, range, start, w),
            forall|k: int| 1 <= k < w.len() ==> #[trigger] w[k] != EXFAT_END_OF_CHAIN,
        ensures
            c == w,
    {
        self.lemma_chain_prefix(contents, range, start, c, w);
        reveal(ExfatVolume::walkable_chain);
        if c.len() < w.len() {
            let n = c.len() as int;
            assert(c[n - 1] == w[n - 1]);
            assert(self.spec_link(contents, range.offset as int, w[n - 1]) == w[n]);
            assert(c.last() == c[n - 1]);
            assert(w[n] != EXFAT_END_OF_CHAIN);
        }
        assert(c =~= w);
    }

    proof fn lemma_prefix_at(&self, contents: Seq<u8>, range: ByteRange, start: u32, c: Seq<u32>, w: Seq<u32>, k: int)
        requires
            self.is_chain(contents, range.offset as int, c),
            c[0] == start,
            forall|k: int| 1 <= k < c.len() ==> #[trigger] c[k] != EXFAT_END_OF_CHAIN,
            self.is_chain(contents, range.offset as int, w),
            w[0] == start,
            0 <= k < c.len(),
        ensures
            k < w.len() && c[k] == w[k],
        decreases k,
    {
        if k > 0 {
            self.lemma_prefix_at(contents, range, start, c, w, k - 1);
            assert(c[k] == self.spec_link(contents, range.offset as int, c[k - 1]));
            if k == w.len() {
                assert(w.last() == w[k - 1]);
            }
        }
    }

    proof fn lemma_walk_next(&self, contents: Seq<u8>, range: ByteRange, start: u32, w: Seq<u32>, n: int, next: u32)
        requires
            self.walkable_chain(contents, range, start, w),
            0 <= n < w.len(),
            next == self.spec_link(contents, range.offset as int, w[n]),
            next != EXFAT_END_OF_CHAIN,
        ensures
            n + 1 < w.len(),
            w[n + 1] == next,
            w.take(n + 1).push(next) == w.take(n + 2),
    {
        reveal(ExfatVolume::walkable_chain);
        if n + 1 == w.len() {
            assert(w.last() == w[n]);
        }
        assert(w.take(n + 1).push(next) =~= w.take(n + 2));
    }
}

/// Reads a FAT entry, returning the next cluster or `None` at end of chain.
pub fn next_cluster<D: BlockDevice>(
    device: &D,
    volume: &ExfatVolume,
    volume_range: ByteRange,
    cluster: u32,
) -> (r: RecoveryResult<Option<u32>>)
    ensures
        r is Ok ==> FIRST_CLUSTER <= cluster < volume.spec_cluster_limit(),
        r matches Ok(None) ==> volume.spec_link(
            device.contents(),
            volume_range.offset as int,
            cluster,
        ) == EXFAT_END_OF_CHAIN,
        r matches Ok(Some(n)) ==> n == volume.spec_link(
            device.contents(),
            volume_range.offset as int,
            cluster,
        ) && FIRST_CLUSTER <= n < volume.spec_cluster_limit() && n != EXFAT_END_OF_CHAIN,
        !(FIRST_CLUSTER <= cluster < volume.spec_cluster_limit()) ==> r is Err,
        readable(device) && volume.link_readable(device.contents(), volume_range, cluster) ==> r is Ok,
{
    let offset = volume.fat_entry_offset(volume_range.offset, cluster)?;
    let end = match offset.checked_add(4) {
        Some(e) => e,
        None => return Err(RecoveryError::RangeOverflow),
    };
    if end > volume_range.end()? {
        return Err(io_error("FAT entry outside the volume"));
    }
    let raw = read_exact(device, offset, 4)?;
    let value = le_u32(raw.as_slice(), 0);
    proof {
        assert(spec_le_u32(raw@, 0) == spec_le_u32(device.contents(), offset as int));
    }
    // 0xFFFFFFFF ends a chain; 0xFFFFFFF7 marks a bad cluster.
    if value == EXFAT_END_OF_CHAIN {
        return Ok(None);
    }
    if value == EXFAT_BAD_CLUSTER {
        return Err(io_error("FAT chain enters a bad cluster"));
    }
    if !volume.is_valid_cluster(value) {
        return Err(io_error("FAT link outside the cluster heap"));
    }
    Ok(Some(value))
}

/// Resolves a cluster chain with loop detection and a traversal bound.
pub fn cluster_chain<D: BlockDevice>(
    device: &D,
    volume: &ExfatVolume,
    volume_range: ByteRange,
    start: u32,
) -> (r: RecoveryResult<Vec<u32>>)
    ensures
        r matches Ok(chain) ==> chain@[0] == start && volume.is_chain(
            device.contents(),
            volume_range.offset as int,
            chain@,
        ),
        !(FIRST_CLUSTER <= start < volume.spec_cluster_limit()) ==> r is Err,
        r matches Ok(chain) ==> forall|k: int| 1 <= k < chain@.len() ==> #[trigger] chain@[k] != EXFAT_END_OF_CHAIN,
        readable(device) && (exists|w: Seq<u32>| #[trigger] volume.walkable_chain(device.contents(), volume_range, start, w))
            ==> r is Ok,
{
    proof {
        if readable(device) && exists|w: Seq<u32>| #[trigger] volume.walkable_chain(device.contents(), volume_range, start, w) {
            let w = choose|w: Seq<u32>| #[trigger] volume.walkable_chain(device.contents(), volume_range, start, w);
            volume.lemma_walk_basic(device.contents(), volume_range, start, w);
        }
    }
    if !volume.is_valid_cluster(start) {
        return Err(io_error("chain start outside the cluster heap"));
    }
    let bound: usize = if (volume.cluster_count as u64) < (usize::MAX as u64) {
        volume.cluster_count as usize
    } else {
        usize::MAX - 1
    };
    let ghost has_w = readable(device) && exists|w: Seq<u32>| #[trigger] volume.walkable_chain(device.contents(), volume_range, start, w);
    let ghost w = choose|w: Seq<u32>| #[trigger] volume.walkable_chain(device.contents(), volume_range, start, w);
    proof {
        if has_w {
            volume.lemma_walk_basic(device.contents(), volume_range, start, w);
            assert(Seq::<u32>::empty() == w.take(0));
        }
    }
    let mut chain: Vec<u32> = Vec::new();
    let mut seen: BTreeSet<u32> = BTreeSet::new();
    let mut current = start;
    while chain.len() <= bound
        invariant
            bound < usize::MAX,
            chain@.len() > 0 ==> chain@[0] == start,
            chain@.len() == 0 ==> current == start,
            FIRST_CLUSTER <= current < volume.spec_cluster_limit(),
            forall|i: int|
                0 <= i < chain@.len() ==> FIRST_CLUSTER <= #[trigger] chain@[i]
                    < volume.spec_cluster_limit(),
            forall|i: int|
                #![trigger chain@[i]]
                0 <= i < chain@.len() - 1 ==> volume.spec_link(
                    device.contents(),
                    volume_range.offset as int,
                    chain@[i],
                ) == chain@[i + 1],
            chain@.len() > 0 ==> volume.spec_link(
                device.contents(),
                volume_range.offset as int,
                chain@.last(),
            ) == current,
            chain@.no_duplicates(),
            seen@ == chain@.to_set(),
            bound == volume.chain_limit(),
            forall|k: int| 1 <= k < chain@.len() ==> #[trigger] chain@[k] != EXFAT_END_OF_CHAIN,
            chain@.len() > 0 ==> current != EXFAT_END_OF_CHAIN,
            has_w == (readable(device) && exists|w: Seq<u32>| #[trigger] volume.walkable_chain(device.contents(), volume_range, start, w)),
            has_w ==> readable(device) && volume.walkable_chain(device.contents(), volume_range, start, w),
            has_w ==> chain@ == w.take(chain@.len() as int) && chain@.len() < w.len() && current == w[chain@.len() as int],
        decreases bound + 1 - chain.len(),
    {
        proof {
            if has_w {
                volume.lemma_walk_fresh(device.contents(), volume_range, start, w, chain@.len() as int);
                assert(!seen@.contains(current));
            }
        }
        if !seen.insert(current) {
            return Err(io_error("exFAT cluster chain loops"));
        }
        let ghost before = chain@;
        chain.push(current);
        proof {
            lemma_push_fresh(before, current);
        }
        proof {
            if has_w {
                assert(chain@ == w.take(chain@.len() as int));
            }
        }
        proof {
            assert(chain@.to_set() == before.to_set().insert(current)) by {
                assert(chain@ == before.push(current));
                assert forall|x: u32| chain@.to_set().contains(x) <==> before.to_set().insert(
                    current,
                ).contains(x) by {
                    if before.to_set().contains(x) && x != current {
                        let k = choose|k: int| 0 <= k < before.len() && before[k] == x;
                        assert(chain@[k] == x);
                    }
                    if x == current {
                        assert(chain@[chain@.len() - 1] == x);
                    }
                }
                assert(chain@.to_set() =~= before.to_set().insert(current));
            }
            assert forall|a: int, b: int| 0 <= a < b < chain@.len() implies chain@[a]
                != chain@[b] by {
                if b == chain@.len() - 1 {
                    assert(before.to_set().contains(before[a]));
                }
            }
        }
        match next_cluster(device, volume, volume_range, current)? {
            Some(next) => {
                proof {
                    if has_w {
                        volume.lemma_walk_next(device.contents(), volume_range, start, w, chain@.len() - 1, next);
                    }
                }
                current = next;
            },
            None => {
                return Ok(chain);
            },
        }
    }
    proof {
        if has_w {
            volume.lemma_walk_basic(device.contents(), volume_range, start, w);
        }
    }
    Err(io_error("exFAT cluster chain exceeds the traversal bound"))
}

/// One step of the entry-set checksum: rotate right by one bit, then add.
pub open spec fn checksum16_step(sum: u16, byte: u8) -> u16 {
    ((sum / 2 + (sum % 2) * 32768 + byte) % 65536) as u16
}

/// The entry-set checksum over the first `k` bytes of `set`, skipping the
/// checksum field (bytes 2 and 3 of the first entry).
pub open spec fn set_checksum_prefix(set: Seq<u8>, k: int) -> u16
    decreases k,
{
    if k <= 0 {
        0
    } else if k - 1 == 2 || k - 1 == 3 {
        set_checksum_prefix(set, k - 1)
    } else {
        checksum16_step(set_checksum_prefix(set, k - 1), set[k - 1])
    }
}

/// The exFAT entry-set checksum of the bytes of a whole set.
pub open spec fn set_checksum(set: Seq<u8>) -> u16 {
    set_checksum_prefix(set, set.len() as int)
}

/// The exFAT entry-set checksum, computed over every entry in the set with the
/// checksum field itself excluded.
pub fn entry_set_checksum(set: &[u8]) -> (r: u16)
    ensures
        r == set_checksum(set@),
{
    let mut sum: u16 = 0;
    let mut k: usize = 0;
    while k < set.len()
        invariant
            k <= set@.len(),
            sum == set_checksum_prefix(set@, k as int),
        decreases set@.len() - k,
    {
        if k != 2 && k != 3 {
            let rotated: u32 = (sum / 2) as u32 + ((sum % 2) as u32) * 32768;
            sum = ((rotated + set[k] as u32) % 65536) as u16;
        }
        k = k + 1;
    }
    sum
}

/// The 15 UTF-16 units a File Name entry at byte `o` carries.
pub open spec fn name_entry_units(set: Seq<u8>, o: int) -> Seq<u16> {
    Seq::new(15, |i: int| spec_le_u16(set, o + 2 + 2 * i) as u16)
}

/// Whether the entry at byte `o` is a File Name entry, in use or not.
pub open spec fn is_name_entry(set: Seq<u8>, o: int) -> bool {
    set[o] & TYPE_BITS == TYPE_FILE_NAME & TYPE_BITS
}

/// The units carried by the File Name entries among slots `2..k` of a set.
pub open spec fn set_name_units(set: Seq<u8>, k: int) -> Seq<u16>
    decreases k,
{
    if k <= 2 {
        Seq::empty()
    } else if is_name_entry(set, 32 * (k - 1)) {
        set_name_units(set, k - 1) + name_entry_units(set, 32 * (k - 1))
    } else {
        set_name_units(set, k - 1)
    }
}

/// The name a set carries, as scalar values, or why it is rejected.
pub open spec fn set_name(set: Seq<u8>, declared: u8) -> Result<Seq<u32>, EntrySetError> {
    let units = set_name_units(set, (set.len() / 32) as int);
    if declared > units.len() {
        Err(EntrySetError::NameLengthMismatch { declared, found: units.len() as usize })
    } else {
        match utf16_scalars(units.take(declared as int)) {
            None => Err(EntrySetError::InvalidName),
            Some(name) => if name.len() == 0 || name.contains(0x2Fu32) || name.contains(0x5Cu32)
                || name.contains(0u32) {
                Err(EntrySetError::InvalidName)
            } else {
                Ok(name)
            },
        }
    }
}

/// The units of the File Name entries in slots `2..` of `set`.
fn gather_name_units(set: &[u8]) -> (units: Vec<u16>)
    ensures
        units@ == set_name_units(set@, (set@.len() / 32) as int),
        units@.len() <= 15 * (set@.len() / 32),
{
    let n = set.len() / 32;
    assert(32 * n <= set@.len());
    let mut units: Vec<u16> = Vec::new();
    let mut k: usize = 2;
    if n < 2 {
        return units;
    }
    while k < n
        invariant
            2 <= k <= n,
            n == set@.len() / 32,
            32 * n <= set.len(),
            units@ == set_name_units(set@, k as int),
            units@.len() <= 15 * k,
        decreases n - k,
    {
        let o = 32 * k;
        if set[o] & TYPE_BITS == TYPE_FILE_NAME & TYPE_BITS {
            let ghost before = units@;
            let mut i: usize = 0;
            while i < 15
                invariant
                    i <= 15,
                    o == 32 * k,
                    o + 32 <= set.len(),
                    units@ == before + name_entry_units(set@, o as int).take(i as int),
                decreases 15 - i,
            {
                units.push(le_u16(set, o + 2 + 2 * i));
                assert(name_entry_units(set@, o as int).take(i + 1) == name_entry_units(
                    set@,
                    o as int,
                ).take(i as int).push(name_entry_units(set@, o as int)[i as int]));
                i = i + 1;
            }
            assert(name_entry_units(set@, o as int).take(15) == name_entry_units(set@, o as int));
        }
        k = k + 1;
    }
    units
}

/// Whether `c` may appear in a recovered name.
fn forbidden_in_name(chars: &Vec<char>) -> (r: bool)
    ensures
        r == (scalars(chars@).contains(0x2Fu32) || scalars(chars@).contains(0x5Cu32)
            || scalars(chars@).contains(0u32)),
{
    let mut i: usize = 0;
    while i < chars.len()
        invariant
            i <= chars@.len(),
            forall|t: int|
                0 <= t < i ==> #[trigger] scalars(chars@)[t] != 0x2Fu32 && scalars(chars@)[t]
                    != 0x5Cu32 && scalars(chars@)[t] != 0u32,
        decreases chars@.len() - i,
    {
        let c = chars[i] as u32;
        if c == 0x2F || c == 0x5C || c == 0 {
            assert(scalars(chars@)[i as int] == c);
            return true;
        }
        i = i + 1;
    }
    false
}

/// Assembles the UTF-16 name carried by the File Name entries of a set.
pub fn assemble_name(set: &[u8], declared_len: u8) -> (r: Result<String, EntrySetError>)
    ensures
        match (r, set_name(set@, declared_len)) {
            (Ok(name), Ok(expected)) => scalars(name@) == expected,
            (Err(e), Err(expected)) => e == expected,
            _ => false,
        },
{
    let units = gather_name_units(set);
    let declared = declared_len as usize;
    // The name entries must actually carry the declared character count.
    if declared > units.len() {
        return Err(EntrySetError::NameLengthMismatch { declared: declared_len, found: units.len() });
    }
    let name_units = crate::bytes::copy_range(units.as_slice(), 0, declared);
    assert(name_units@ == units@.take(declared as int));
    // Reject unpaired surrogates rather than substituting replacement characters.
    let chars = match decode_utf16(name_units.as_slice()) {
        Some(c) => c,
        None => return Err(EntrySetError::InvalidName),
    };
    // Path separators in a name would let a recovered file escape its directory.
    if chars.len() == 0 || forbidden_in_name(&chars) {
        return Err(EntrySetError::InvalidName);
    }
    Ok(string_from_chars(&chars))
}

/// Slots in a directory buffer.
pub open spec fn slot_count(data: Seq<u8>) -> int {
    (data.len() / 32) as int
}

/// The secondary count of the set whose File entry is slot `p`.
pub open spec fn set_secondary(data: Seq<u8>, p: int) -> u8 {
    data[32 * p + 1]
}

/// Slots a set beginning at slot `p` consumes.
pub open spec fn set_consumed(data: Seq<u8>, p: int) -> int {
    let sc = set_secondary(data, p);
    let avail = slot_count(data) - p;
    if sc == 0 || sc > MAX_NAME_ENTRIES + 1 {
        1
    } else if avail < sc + 1 {
        avail
    } else {
        sc + 1
    }
}

/// The bytes of the set beginning at slot `p`, when all of it is present.
pub open spec fn set_bytes(data: Seq<u8>, p: int) -> Seq<u8> {
    data.subrange(32 * p, 32 * (p + set_secondary(data, p) + 1))
}

/// Why the set beginning at slot `p` is rejected, if it is.
pub open spec fn set_error(data: Seq<u8>, p: int) -> Option<EntrySetError> {
    let sc = set_secondary(data, p);
    let avail = slot_count(data) - p;
    let declared = spec_le_u16(data, 32 * p + 2) as u16;
    if sc == 0 || sc > MAX_NAME_ENTRIES + 1 {
        Some(EntrySetError::SecondaryCountOutOfRange { declared: sc })
    } else if avail < sc + 1 {
        Some(EntrySetError::SecondaryCountMismatch { declared: sc, found: (avail - 1) as u8 })
    } else if data[32 * (p + 1)] & TYPE_BITS != TYPE_STREAM & TYPE_BITS {
        Some(EntrySetError::MissingStream)
    } else if set_checksum(set_bytes(data, p)) != declared {
        Some(
            EntrySetError::ChecksumMismatch {
                declared,
                computed: set_checksum(set_bytes(data, p)),
            },
        )
    } else {
        match set_name(set_bytes(data, p), data[32 * (p + 1) + 3]) {
            Err(e) => Some(e),
            Ok(_) => None,
        }
    }
}

/// An entry set is accepted only when the checksum it declares is the one
/// computed over its entries.
pub proof fn lemma_accepted_set_checksum_matches(data: Seq<u8>, p: int)
    requires
        set_error(data, p) is None,
    ensures
        set_checksum(set_bytes(data, p)) == spec_le_u16(data, 32 * p + 2) as u16,
{
}

/// A set, valid or not, always moves a directory walk forward: it consumes
/// at least one slot and no more than remain, so one malformed set never
/// stalls the walk or hides the sets after it.
pub proof fn lemma_set_consumes_progress(data: Seq<u8>, p: int)
    requires
        0 <= p < slot_count(data),
    ensures
        1 <= set_consumed(data, p) <= slot_count(data) - p,
{
}

/// Whether `e` is the entry a valid set beginning at slot `p` describes.
pub open spec fn entry_of_set(e: DirectoryEntry, data: Seq<u8>, p: int) -> bool {
    let s = 32 * (p + 1);
    &&& set_name(set_bytes(data, p), data[s + 3]) == Ok::<Seq<u32>, EntrySetError>(scalars(e.name@))
    &&& e.attributes == spec_le_u16(data, 32 * p + 4)
    &&& e.first_cluster == spec_le_u32(data, s + 20)
    &&& e.valid_data_length == spec_le_u64(data, s + 8)
    &&& e.data_length == spec_le_u64(data, s + 24)
    &&& e.no_fat_chain == (data[s + 1] & 0x02 != 0)
    &&& e.deleted == (data[32 * p] & IN_USE_MASK == 0)
}

/// The name of an entry a valid set describes is not empty, takes as many
/// UTF-16 units as the set declares, and holds no
/// `/`, `\\` or NUL, so a recovered file cannot escape its directory.
pub proof fn lemma_set_name_is_safe(e: DirectoryEntry, data: Seq<u8>, p: int)
    requires
        entry_of_set(e, data, p),
    ensures
        e.name@.len() > 0,
        utf16_width(scalars(e.name@)) == data[32 * (p + 1) + 3],
        !e.name@.contains('/'),
        !e.name@.contains('\\'),
        !e.name@.contains('\0'),
{
    let name = scalars(e.name@);
    assert(name.len() == e.name@.len());
    let units = set_name_units(set_bytes(data, p), (set_bytes(data, p).len() / 32) as int);
    let declared = data[32 * (p + 1) + 3];
    lemma_utf16_width(units.take(declared as int));
    if e.name@.contains('/') {
        let i = choose|i: int| 0 <= i < e.name@.len() && e.name@[i] == '/';
        assert(name[i] == 0x2Fu32);
        assert(name.contains(0x2Fu32));
    }
    if e.name@.contains('\\') {
        let i = choose|i: int| 0 <= i < e.name@.len() && e.name@[i] == '\\';
        assert(name[i] == 0x5Cu32);
        assert(name.contains(0x5Cu32));
    }
    if e.name@.contains('\0') {
        let i = choose|i: int| 0 <= i < e.name@.len() && e.name@[i] == '\0';
        assert(name[i] == 0u32);
        assert(name.contains(0u32));
    }
}

/// Parses one entry set beginning at slot `p`, which must be a File entry.
///
/// Returns the parsed entry and the number of 32-byte slots consumed, or the
/// reason the set was rejected alongside the slot count to skip.
pub fn parse_entry_set(data: &[u8], p: usize) -> (r: (Result<DirectoryEntry, EntrySetError>, usize))
    requires
        p < data@.len() / 32,
    ensures
        r.1 == set_consumed(data@, p as int),
        match r.0 {
            Ok(e) => set_error(data@, p as int) is None && entry_of_set(e, data@, p as int),
            Err(err) => set_error(data@, p as int) == Some(err),
        },
{
    let n = data.len() / 32;
    assert(32 * n <= data@.len());
    let base = 32 * p;
    let deleted = data[base] & IN_USE_MASK == 0;
    let secondary_count = data[base + 1];
    let declared_checksum = le_u16(data, base + 2);
    let attributes = le_u16(data, base + 4);
    // A set is one File entry plus its secondaries: a Stream entry and at most
    // 17 name entries. Bounding this caps how far a corrupt count can skip.
    if secondary_count == 0 || secondary_count > MAX_NAME_ENTRIES + 1 {
        return (Err(EntrySetError::SecondaryCountOutOfRange { declared: secondary_count }), 1);
    }
    let total = secondary_count as usize + 1;
    let avail = n - p;
    if avail < total {
        return (
            Err(
                EntrySetError::SecondaryCountMismatch {
                    declared: secondary_count,
                    found: (avail - 1) as u8,
                },
            ),
            avail,
        );
    }
    let set = crate::bytes::copy_range(data, base, base + 32 * total);
    // The Stream Extension entry must directly follow the File entry.
    let s = base + 32;
    if data[s] & TYPE_BITS != TYPE_STREAM & TYPE_BITS {
        return (Err(EntrySetError::MissingStream), total);
    }
    let computed = entry_set_checksum(set.as_slice());
    if computed != declared_checksum {
        // Retained as evidence; the set is not trusted.
        return (
            Err(EntrySetError::ChecksumMismatch { declared: declared_checksum, computed }),
            total,
        );
    }
    let name_length = data[s + 3];
    let general_flags = data[s + 1];
    let first_cluster = le_u32(data, s + 20);
    let valid_data_length = le_u64(data, s + 8);
    let data_length = le_u64(data, s + 24);
    let name = match assemble_name(set.as_slice(), name_length) {
        Ok(name) => name,
        Err(error) => return (Err(error), total),
    };
    (
        Ok(
            DirectoryEntry {
                name,
                attributes,
                first_cluster,
                data_length,
                valid_data_length,
                // Bit 1 of the general secondary flags means "no FAT chain":
                // the stream is contiguous.
                no_fat_chain: general_flags & 0x02 != 0,
                deleted,
            },
        ),
        total,
    )
}

/// Whether an entry type names a bitmap, upcase table or volume label.
pub open spec fn is_metadata_type(t: u8) -> bool {
    let base = t & TYPE_BITS;
    base == TYPE_BITMAP & TYPE_BITS || base == TYPE_UPCASE & TYPE_BITS || base
        == TYPE_VOLUME_LABEL & TYPE_BITS
}

/// The slots, from `i` on, at which a directory buffer's entry sets begin, in
/// the order a traversal parses them. Traversal stops at an end-of-directory
/// entry and always advances.
pub open spec fn set_positions(data: Seq<u8>, i: int) -> Seq<int>
    decreases slot_count(data) - i,
{
    if i < 0 || i >= slot_count(data) {
        Seq::empty()
    } else {
        let t = data[32 * i];
        if t == TYPE_END_OF_DIRECTORY {
            Seq::empty()
        } else if is_metadata_type(t) || t & TYPE_BITS != TYPE_FILE & TYPE_BITS {
            set_positions(data, i + 1)
        } else {
            seq![i] + set_positions(data, i + set_consumed(data, i))
        }
    }
}

/// The rejections the sets at `ps` produce, in order.
pub open spec fn rejections(data: Seq<u8>, ps: Seq<int>) -> Seq<EntrySetError>
    decreases ps.len(),
{
    if ps.len() == 0 {
        Seq::empty()
    } else {
        let rest = rejections(data, ps.drop_first());
        match set_error(data, ps[0]) {
            Some(e) => seq![e] + rest,
            None => rest,
        }
    }
}

/// The valid sets among `ps` that a traversal reports, in order.
pub open spec fn reported_sets(data: Seq<u8>, ps: Seq<int>, include_deleted: bool) -> Seq<int>
    decreases ps.len(),
{
    if ps.len() == 0 {
        Seq::empty()
    } else {
        let rest = reported_sets(data, ps.drop_first(), include_deleted);
        if set_error(data, ps[0]) is None && (data[32 * ps[0]] & IN_USE_MASK != 0
            || include_deleted) {
            seq![ps[0]] + rest
        } else {
            rest
        }
    }
}

/// Every set a traversal meets is accounted for exactly once: it is either
/// rejected, with one error, or, deleted sets included, reported.
pub proof fn lemma_every_set_counted(data: Seq<u8>, ps: Seq<int>)
    ensures
        rejections(data, ps).len() + reported_sets(data, ps, true).len() == ps.len(),
    decreases ps.len(),
{
    if ps.len() > 0 {
        lemma_every_set_counted(data, ps.drop_first());
    }
}

/// The sets a traversal meets start at increasing slots, each after the
/// slots the one before consumed, so none is met twice.
pub proof fn lemma_set_positions_increase(data: Seq<u8>, i: int)
    ensures
        forall|k: int|
            0 <= k < set_positions(data, i).len() ==> i <= #[trigger] set_positions(data, i)[k] < slot_count(data),
        forall|a: int, b: int|
            0 <= a < b < set_positions(data, i).len() ==> #[trigger] set_positions(data, i)[a] + set_consumed(
                data,
                set_positions(data, i)[a],
            ) <= #[trigger] set_positions(data, i)[b],
    decreases slot_count(data) - i,
{
    if 0 <= i < slot_count(data) {
        let t = data[32 * i];
        if t != TYPE_END_OF_DIRECTORY {
            if is_metadata_type(t) || t & TYPE_BITS != TYPE_FILE & TYPE_BITS {
                lemma_set_positions_increase(data, i + 1);
                assert(set_positions(data, i) == set_positions(data, i + 1));
            } else {
                lemma_set_consumes_progress(data, i);
                lemma_set_positions_increase(data, i + set_consumed(data, i));
                let ps = set_positions(data, i);
                let rest = set_positions(data, i + set_consumed(data, i));
                assert(ps == seq![i] + rest);
                assert forall|a: int, b: int| 0 <= a < b < ps.len() implies #[trigger] ps[a] + set_consumed(data, ps[a])
                    <= #[trigger] ps[b] by {
                    assert(ps[b] == rest[b - 1]);
                    if a > 0 {
                        assert(ps[a] == rest[a - 1]);
                    }
                }
                assert forall|k: int| 0 <= k < ps.len() implies i <= #[trigger] ps[k] < slot_count(data) by {
                    if k > 0 {
                        assert(ps[k] == rest[k - 1]);
                    }
                }
            }
        }
    }
}

/// Whether `out` holds exactly the entries of the sets at `ps`.
pub open spec fn entries_of_sets(out: Seq<DirectoryEntry>, data: Seq<u8>, ps: Seq<int>) -> bool {
    &&& out.len() == ps.len()
    &&& forall|k: int| 0 <= k < out.len() ==> entry_of_set(#[trigger] out[k], data, ps[k])
}

/// The bytes of the clusters of `chain`, one after another.
pub open spec fn chain_data(v: ExfatVolume, contents: Seq<u8>, start: int, chain: Seq<u32>) -> Seq<
    u8,
>
    decreases chain.len(),
{
    if chain.len() == 0 {
        Seq::empty()
    } else {
        let offset = v.spec_cluster_offset(start, chain[0]);
        contents.subrange(offset, offset + v.bytes_per_sector * v.sectors_per_cluster)
            + chain_data(v, contents, start, chain.drop_first())
    }
}

/// Scans a directory buffer for entry sets from slot 0, appending the valid
/// ones to `out` and the rejections to `rejected`.
pub fn scan_entry_sets(
    data: &[u8],
    include_deleted: bool,
    out: &mut Vec<DirectoryEntry>,
    rejected: &mut Vec<EntrySetError>,
)
    ensures
        final(rejected)@ == old(rejected)@ + rejections(data@, set_positions(data@, 0)),
        final(out)@.len() >= old(out)@.len(),
        final(out)@.take(old(out)@.len() as int) == old(out)@,
        entries_of_sets(
            final(out)@.skip(old(out)@.len() as int),
            data@,
            reported_sets(data@, set_positions(data@, 0), include_deleted),
        ),
{
    let n = data.len() / 32;
    assert(32 * n <= data@.len());
    let ghost start_out = out@.len();
    let ghost all = set_positions(data@, 0);
    let ghost mut seen: Seq<int> = Seq::empty();
    let mut index: usize = 0;
    assert(out@.skip(start_out as int) == Seq::<DirectoryEntry>::empty());
    assert(old(rejected)@ + Seq::<EntrySetError>::empty() == old(rejected)@);
    assert(Seq::<int>::empty() + all == all);
    while index < n
        invariant
            n == data@.len() / 32,
            32 * n <= data.len(),
            index <= n,
            seen + set_positions(data@, index as int) == all,
            rejected@ == old(rejected)@ + rejections(data@, seen),
            out@.len() >= start_out,
            start_out == old(out)@.len(),
            out@.take(start_out as int) == old(out)@,
            entries_of_sets(out@.skip(start_out as int), data@, reported_sets(data@, seen, include_deleted)),
        ensures
            seen == all,
            rejected@ == old(rejected)@ + rejections(data@, seen),
            out@.len() >= start_out,
            out@.take(start_out as int) == old(out)@,
            entries_of_sets(out@.skip(start_out as int), data@, reported_sets(data@, seen, include_deleted)),
        decreases n - index,
    {
        let entry_type = data[32 * index];
        if entry_type == TYPE_END_OF_DIRECTORY {
            assert(seen + Seq::<int>::empty() == seen);
            break;
        }
        // Bitmap, upcase table and volume label are not files.
        let base = entry_type & TYPE_BITS;
        if base == TYPE_BITMAP & TYPE_BITS || base == TYPE_UPCASE & TYPE_BITS || base
            == TYPE_VOLUME_LABEL & TYPE_BITS {
            index = index + 1;
            continue;
        }
        if base != TYPE_FILE & TYPE_BITS {
            index = index + 1;
            continue;
        }
        let (result, consumed) = parse_entry_set(data, index);
        let ghost old_out = out@;
        let ghost old_rej = rejected@;
        proof {
            lemma_rejections_push(data@, seen, index as int);
            lemma_reported_push(data@, seen, index as int, include_deleted);
            assert((seen + seq![index as int]) + set_positions(data@, index + consumed) == all);
        }
        match result {
            Ok(entry) => {
                if !entry.deleted || include_deleted {
                    out.push(entry);
                    proof {
                        assert(out@.take(start_out as int) == old_out.take(start_out as int));
                        assert(out@.skip(start_out as int) == old_out.skip(start_out as int).push(
                            entry,
                        ));
                        let o = out@.skip(start_out as int);
                        let ps = reported_sets(data@, seen + seq![index as int], include_deleted);
                        assert forall|k: int| 0 <= k < o.len() implies entry_of_set(
                            #[trigger] o[k],
                            data@,
                            ps[k],
                        ) by {
                            if k < o.len() - 1 {
                                assert(o[k] == old_out.skip(start_out as int)[k]);
                            }
                        }
                    }
                }
            },
            Err(error) => {
                rejected.push(error);
                proof {
                    assert(rejected@ == old(rejected)@ + rejections(data@, seen + seq![index as int]));
                }
            },
        }
        proof {
            seen = seen + seq![index as int];
        }
        // Always advance, so a malformed set cannot stall traversal.
        index = index + consumed;
    }
}

/// Extending the parsed positions by one set adds that set's rejection.
pub proof fn lemma_rejections_push(data: Seq<u8>, ps: Seq<int>, p: int)
    ensures
        rejections(data, ps + seq![p]) == rejections(data, ps) + match set_error(data, p) {
            Some(e) => seq![e],
            None => Seq::<EntrySetError>::empty(),
        },
    decreases ps.len(),
{
    let tail = match set_error(data, p) {
        Some(e) => seq![e],
        None => Seq::<EntrySetError>::empty(),
    };
    if ps.len() == 0 {
        assert(ps + seq![p] == seq![p]);
        assert(seq![p].drop_first() == Seq::<int>::empty());
        assert(seq![p][0] == p);
        assert(rejections(data, Seq::<int>::empty()) == Seq::<EntrySetError>::empty());
        assert(rejections(data, seq![p]) == tail + Seq::<EntrySetError>::empty());
        assert(tail + Seq::<EntrySetError>::empty() == tail);
        assert(Seq::<EntrySetError>::empty() + tail == tail);
    } else {
        assert((ps + seq![p]).drop_first() == ps.drop_first() + seq![p]);
        assert((ps + seq![p])[0] == ps[0]);
        lemma_rejections_push(data, ps.drop_first(), p);
        let r = rejections(data, ps.drop_first());
        match set_error(data, ps[0]) {
            Some(e) => {
                assert(seq![e] + (r + tail) == (seq![e] + r) + tail);
            },
            None => {},
        }
    }
}

/// Extending the parsed positions by one set adds it to the reported sets
/// when it is valid and wanted.
pub proof fn lemma_reported_push(data: Seq<u8>, ps: Seq<int>, p: int, include_deleted: bool)
    ensures
        reported_sets(data, ps + seq![p], include_deleted) == reported_sets(
            data,
            ps,
            include_deleted,
        ) + if set_error(data, p) is None && (data[32 * p] & IN_USE_MASK != 0 || include_deleted) {
            seq![p]
        } else {
            Seq::<int>::empty()
        },
    decreases ps.len(),
{
    let tail = if set_error(data, p) is None && (data[32 * p] & IN_USE_MASK != 0 || include_deleted) {
        seq![p]
    } else {
        Seq::<int>::empty()
    };
    if ps.len() == 0 {
        assert(ps + seq![p] == seq![p]);
        assert(seq![p].drop_first() == Seq::<int>::empty());
        assert(seq![p][0] == p);
        assert(reported_sets(data, Seq::<int>::empty(), include_deleted) == Seq::<int>::empty());
        assert(reported_sets(data, seq![p], include_deleted) == tail + Seq::<int>::empty());
        assert(tail + Seq::<int>::empty() == tail);
        assert(Seq::<int>::empty() + tail == tail);
    } else {
        assert((ps + seq![p]).drop_first() == ps.drop_first() + seq![p]);
        assert((ps + seq![p])[0] == ps[0]);
        lemma_reported_push(data, ps.drop_first(), p, include_deleted);
        let r = reported_sets(data, ps.drop_first(), include_deleted);
        assert(seq![ps[0]] + (r + tail) == (seq![ps[0]] + r) + tail);
    }
}

/// Reads a directory's entries, following its cluster chain.
///
/// Entries whose sets fail validation are reported through `rejected` rather
/// than being silently dropped or treated as valid.
pub fn read_directory<D: BlockDevice>(
    device: &D,
    volume: &ExfatVolume,
    volume_range: ByteRange,
    start_cluster: u32,
    include_deleted: bool,
    rejected: &mut Vec<EntrySetError>,
) -> (r: RecoveryResult<Vec<DirectoryEntry>>)
    ensures
        r is Err ==> final(rejected)@ == old(rejected)@,
        r matches Ok(out) ==> exists|chain: Seq<u32>|
            #![trigger volume.is_chain(device.contents(), volume_range.offset as int, chain)]
            {
                let data = chain_data(*volume, device.contents(), volume_range.offset as int, chain);
                let ps = set_positions(data, 0);
                &&& chain[0] == start_cluster
                &&& volume.is_chain(device.contents(), volume_range.offset as int, chain)
                &&& chain.len() <= MAX_DIRECTORY_CLUSTERS
                &&& final(rejected)@ == old(rejected)@ + rejections(data, ps)
                &&& entries_of_sets(out@, data, reported_sets(data, ps, include_deleted))
            },
        !(FIRST_CLUSTER <= start_cluster < volume.spec_cluster_limit()) ==> r is Err,
        readable(device) && volume_range.within(device.contents().len() as int) && volume.heap_in_range(volume_range)
            && (exists|w: Seq<u32>|
            #[trigger] volume.walkable_chain(device.contents(), volume_range, start_cluster, w) && w.len()
                <= MAX_DIRECTORY_CLUSTERS) ==> r is Ok,
{
    let ghost owed = readable(device) && volume_range.within(device.contents().len() as int) && volume.heap_in_range(
        volume_range,
    ) && (exists|w: Seq<u32>|
        #[trigger] volume.walkable_chain(device.contents(), volume_range, start_cluster, w) && w.len()
            <= MAX_DIRECTORY_CLUSTERS);
    proof {
        if owed {
            let w = choose|w: Seq<u32>|
                #[trigger] volume.walkable_chain(device.contents(), volume_range, start_cluster, w) && w.len()
                    <= MAX_DIRECTORY_CLUSTERS;
            volume.lemma_walk_basic(device.contents(), volume_range, start_cluster, w);
            assert(volume.cluster_in_range(volume_range, start_cluster));
        }
    }
    let cluster_size = volume.cluster_size()?;
    let chain = cluster_chain(device, volume, volume_range, start_cluster)?;
    proof {
        if owed {
            let w = choose|w: Seq<u32>|
                #[trigger] volume.walkable_chain(device.contents(), volume_range, start_cluster, w) && w.len()
                    <= MAX_DIRECTORY_CLUSTERS;
            volume.lemma_chain_prefix(device.contents(), volume_range, start_cluster, chain@, w);
        }
    }
    if chain.len() > MAX_DIRECTORY_CLUSTERS {
        return Err(io_error("directory exceeds the supported cluster count"));
    }
    let volume_end = volume_range.end()?;
    // Read the chain as one stream so an entry set spanning a cluster boundary
    // still parses.
    let ghost contents = device.contents();
    let ghost start = volume_range.offset as int;
    let mut data: Vec<u8> = Vec::new();
    let mut i: usize = 0;
    assert(chain@.skip(0) == chain@);
    assert(Seq::<u8>::empty() + chain_data(*volume, contents, start, chain@) == chain_data(
        *volume,
        contents,
        start,
        chain@,
    ));
    while i < chain.len()
        invariant
            i <= chain@.len(),
            cluster_size == volume.bytes_per_sector * volume.sectors_per_cluster,
            contents == device.contents(),
            start == volume_range.offset,
            data@ + chain_data(*volume, contents, start, chain@.skip(i as int)) == chain_data(
                *volume,
                contents,
                start,
                chain@,
            ),
            owed == (readable(device) && volume_range.within(device.contents().len() as int) && volume.heap_in_range(
                volume_range,
            ) && (exists|w: Seq<u32>|
                #[trigger] volume.walkable_chain(device.contents(), volume_range, start_cluster, w) && w.len()
                    <= MAX_DIRECTORY_CLUSTERS)),
            volume.is_chain(contents, start, chain@),
            volume_end == volume_range.spec_end(),
        decreases chain@.len() - i,
    {
        let cluster = chain[i];
        proof {
            if owed {
                assert(volume.cluster_in_range(volume_range, chain@[i as int]));
            }
        }
        let offset = volume.cluster_offset(volume_range.offset, cluster)?;
        let range = ByteRange::new(offset, cluster_size)?;
        if range.end()? > volume_end {
            return Err(io_error("directory cluster outside the volume"));
        }
        let bytes = read_exact(device, offset, cluster_size)?;
        let ghost before = data@;
        let mut k: usize = 0;
        while k < bytes.len()
            invariant
                k <= bytes@.len(),
                data@ == before + bytes@.take(k as int),
            decreases bytes@.len() - k,
        {
            data.push(bytes[k]);
            assert(bytes@.take(k + 1) == bytes@.take(k as int).push(bytes@[k as int]));
            k = k + 1;
        }
        proof {
            assert(bytes@.take(k as int) == bytes@);
            let rest = chain@.skip(i as int);
            assert(rest[0] == cluster);
            assert(rest.drop_first() == chain@.skip(i + 1));
            assert(before + (bytes@ + chain_data(*volume, contents, start, chain@.skip(i + 1)))
                == (before + bytes@) + chain_data(*volume, contents, start, chain@.skip(i + 1)));
        }
        i = i + 1;
    }
    proof {
        assert(chain@.skip(i as int) == Seq::<u32>::empty());
        assert(data@ + Seq::<u8>::empty() == data@);
    }
    let mut out: Vec<DirectoryEntry> = Vec::new();
    scan_entry_sets(data.as_slice(), include_deleted, &mut out, rejected);
    assert(out@.skip(0) == out@);
    Ok(out)
}

} // verus!
