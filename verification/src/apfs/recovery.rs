//! Recovering regular files, symbolic links and whole volumes from an
//! indexed APFS filesystem.

use vstd::prelude::*;
use crate::apfs::catalog::{all_leaf_records, ApfsCatalogRecord};
use crate::apfs::filesystem::{
    ancestor_names, assembled, check_extent, clipped_length, extent_chunk, extent_fits, extent_pieces,
    extent_source, index_describes,
    file_chunk, fitting_prefix, layout_fits, lemma_extent_chunk_in_file, lemma_extent_pieces_chunks, lemma_fits_prefix,
    lemma_fitting_prefix, lemma_previous_end, lemma_zero_chunk_in_file, previous_end, reversed_path,
    ApfsDirectoryEntry, ApfsFileExtent, ApfsFilesystemIndex,
};
use crate::apfs::fsrecord::{is_regular_file_mode, is_symlink_mode, ApfsInodeValue, S_IFLNK, S_IFMT, S_IFREG};
use crate::apfs::xattr::ApfsXattr;
use crate::apfs::ApfsContainer;
use crate::apfs::volume::{
    advertised_count, advertised_oids, discover_volumes, discovered_from, discovered_volumes, discovery_ok, found_volume,
    volume_found, ApfsDiscoveredVolume,
};
use crate::apfs::checkpoint::{latest_readable, latest_superblock};
use crate::apfs::filesystem::catalog_readable;
use crate::apfs::{header_of, ApfsVolume};
use crate::device::{readable, BlockDevice};
use crate::fat32::{is_pow2, pow2_u64};
use crate::range::{io_error, ByteRange, RecoveryError, RecoveryResult};
use crate::text::{utf8_decoding, utf8_string};

verus! {

broadcast use vstd::std_specs::btree::group_btree_axioms;

/// An extended attribute recovered with its file.
#[derive(Clone, Debug, PartialEq, Eq)]
pub struct ApfsRecoveredXattr {
    pub name: String,
    pub flags: u16,
    pub data: Vec<u8>,
}

/// A recovered regular file.
#[derive(Clone, Debug, PartialEq, Eq)]
pub struct ApfsRecoveredFile {
    pub path: String,
    pub size: u64,
    pub data: Vec<u8>,
    pub xattrs: Vec<ApfsRecoveredXattr>,
}

/// What every chunk of one recovered regular file shares.
#[derive(Clone, Debug, PartialEq, Eq)]
pub struct ApfsRecoveredFileHeader {
    pub path: String,
    pub size: u64,
    pub xattrs: Vec<ApfsRecoveredXattr>,
}

/// A recovered symbolic link: its target is the link's data decoded as
/// UTF-8; invalid UTF-8 is refused rather than turned into another target.
#[derive(Clone, Debug, PartialEq, Eq)]
pub struct ApfsRecoveredSymlink {
    pub path: String,
    pub target: String,
    pub xattrs: Vec<ApfsRecoveredXattr>,
}

/// Whether `r` is the recovered form of attribute `x`.
pub open spec fn recovered_xattr(r: ApfsRecoveredXattr, x: ApfsXattr) -> bool {
    r.name@ == x.name@ && r.flags == x.flags && r.data@ == x.data@
}

/// The attributes an index records for a directory entry's inode.
pub open spec fn entry_xattrs(index: ApfsFilesystemIndex, entry: ApfsDirectoryEntry) -> Seq<ApfsXattr> {
    if index.xattrs@.contains_key(entry.file_id) {
        index.xattrs@[entry.file_id]@
    } else {
        Seq::empty()
    }
}

/// The extents an index records for a data stream.
pub open spec fn stream_extents(index: ApfsFilesystemIndex, private_id: u64) -> Seq<ApfsFileExtent> {
    if index.extents@.contains_key(private_id) {
        index.extents@[private_id]@
    } else {
        Seq::empty()
    }
}

/// The path the index gives a directory entry, if its hierarchy is sound.
pub open spec fn entry_path(index: ApfsFilesystemIndex, entry: ApfsDirectoryEntry) -> Option<Seq<char>> {
    match ancestor_names(index.directories@, entry.parent_id, Seq::empty(), (index.directories@.len() + 1) as nat) {
        Some(names) => Some(reversed_path(names) + seq!['/'] + entry.name@),
        None => None,
    }
}

/// Whether a directory entry names a regular file with a known size.
pub open spec fn is_regular_entry(index: ApfsFilesystemIndex, entry: ApfsDirectoryEntry) -> bool {
    &&& index.inodes@.contains_key(entry.file_id)
    &&& index.inodes@[entry.file_id].mode & S_IFMT == S_IFREG
    &&& index.inodes@[entry.file_id].data_stream_size is Some
}

/// Copies an entry's extended attributes. Inline attributes carry their
/// data, so nothing is read from the source.
fn recover_xattrs(index: &ApfsFilesystemIndex, entry: &ApfsDirectoryEntry) -> (r: Vec<ApfsRecoveredXattr>)
    ensures
        r@.len() == entry_xattrs(*index, *entry).len(),
        forall|i: int| 0 <= i < r@.len() ==> recovered_xattr(#[trigger] r@[i], entry_xattrs(*index, *entry)[i]),
{
    let attrs = index.xattrs_for_entry(entry);
    let mut out: Vec<ApfsRecoveredXattr> = Vec::new();
    let mut i: usize = 0;
    while i < attrs.len()
        invariant
            i <= attrs@.len(),
            attrs@ == entry_xattrs(*index, *entry),
            out@.len() == i,
            forall|j: int| 0 <= j < i ==> recovered_xattr(#[trigger] out@[j], attrs@[j]),
        decreases attrs@.len() - i,
    {
        let x = &attrs[i];
        let data = x.data.clone();
        let name = x.name.clone();
        out.push(ApfsRecoveredXattr { name, flags: x.flags, data });
        i = i + 1;
    }
    out
}

/// Whether `h` is the shared metadata of the regular file that directory
/// entry `entry` names.
pub open spec fn file_header_from(h: ApfsRecoveredFileHeader, index: ApfsFilesystemIndex, entry: ApfsDirectoryEntry) -> bool {
    &&& is_regular_entry(index, entry)
    &&& entry_path(index, entry) == Some(h.path@)
    &&& h.size == index.inodes@[entry.file_id].data_stream_size->0
    &&& h.xattrs@.len() == entry_xattrs(index, entry).len()
    &&& forall|i: int| 0 <= i < h.xattrs@.len() ==> recovered_xattr(#[trigger] h.xattrs@[i], entry_xattrs(index, entry)[i])
}

/// Whether the file a directory entry names, if it is a regular file, has a
/// path and data that reads whole.
pub open spec fn entry_recoverable(
    index: ApfsFilesystemIndex,
    entry: ApfsDirectoryEntry,
    contents: Seq<u8>,
    range: ByteRange,
    block_size: u32,
) -> bool {
    is_regular_entry(index, entry) ==> entry_path(index, entry) is Some && index.data_readable(
        entry,
        contents,
        range,
        block_size,
    )
}

/// Whether every regular file of the index has a path and data that reads
/// whole.
pub open spec fn index_recoverable(index: ApfsFilesystemIndex, contents: Seq<u8>, range: ByteRange, block_size: u32) -> bool {
    forall|j: int|
        0 <= j < index.directories@.len() ==> #[trigger] entry_recoverable(
            index,
            index.directories@[j],
            contents,
            range,
            block_size,
        )
}

/// The shared metadata of a regular file's chunks: `None` for an entry
/// whose inode is missing, is not a regular file, or has no data-stream
/// size.
fn regular_file_metadata(index: &ApfsFilesystemIndex, entry: &ApfsDirectoryEntry) -> (r: RecoveryResult<
    Option<ApfsRecoveredFileHeader>,
>)
    ensures
        !is_regular_entry(*index, *entry) ==> r matches Ok(None),
        is_regular_entry(*index, *entry) ==> match entry_path(*index, *entry) {
            None => r is Err,
            Some(path) => r matches Ok(Some(h)) && file_header_from(h, *index, *entry),
        },
{
    let inode = match index.inodes.get(&entry.file_id) {
        Some(v) => v,
        None => return Ok(None),
    };
    if !is_regular_file_mode(inode.mode) {
        return Ok(None);
    }
    let size = match inode.data_stream_size {
        Some(v) => v,
        None => return Ok(None),
    };
    let path = index.path_for_entry(entry)?;
    let xattrs = recover_xattrs(index, entry);
    Ok(Some(ApfsRecoveredFileHeader { path, size, xattrs }))
}

/// Zero chunks covering `count` bytes from logical offset `start`, from
/// byte `done` of that span on, each of `chunk_size` bytes but the last.
pub open spec fn zero_pieces(start: int, count: int, chunk_size: int, done: int) -> Seq<(u64, Seq<u8>)>
    decreases count - done,
{
    if chunk_size <= 0 || done >= count {
        Seq::empty()
    } else {
        let amount = if count - done < chunk_size {
            count - done
        } else {
            chunk_size
        };
        seq![((start + done) as u64, Seq::new(amount as nat, |i: int| 0u8))] + zero_pieces(
            start,
            count,
            chunk_size,
            done + amount,
        )
    }
}

/// The chunks a stream of the first `n` extents of a file of `size` bytes
/// hands over, and the logical offset it has reached: before each extent
/// with data inside the file, the gap up to it as zeros, then the extent's
/// bytes.
pub open spec fn stream_state(
    extents: Seq<ApfsFileExtent>,
    size: int,
    contents: Seq<u8>,
    base: int,
    block_size: int,
    chunk_size: int,
    n: int,
) -> (Seq<(u64, Seq<u8>)>, int)
    decreases n,
{
    if n <= 0 {
        (Seq::empty(), 0)
    } else {
        let (p, next) = stream_state(extents, size, contents, base, block_size, chunk_size, n - 1);
        let e = extents[n - 1];
        let len = clipped_length(e, size);
        if len == 0 {
            (p, next)
        } else {
            let src = if e.sparse {
                0
            } else {
                extent_source(base, block_size, e)
            };
            (
                p + zero_pieces(next, e.logical_offset - next, chunk_size, 0) + extent_pieces(
                    e,
                    src,
                    contents,
                    chunk_size,
                    0,
                    len,
                ),
                e.logical_offset + len,
            )
        }
    }
}

/// The chunks of a whole file of `size` bytes streamed from its extents:
/// every byte from offset 0 to `size` once, in logical order, holes and
/// unmapped ranges as zeros.
pub open spec fn stream_pieces(
    extents: Seq<ApfsFileExtent>,
    size: int,
    contents: Seq<u8>,
    base: int,
    block_size: int,
    chunk_size: int,
) -> Seq<(u64, Seq<u8>)> {
    let (p, next) = stream_state(extents, size, contents, base, block_size, chunk_size, extents.len() as int);
    p + zero_pieces(next, size - next, chunk_size, 0)
}

/// A recovered extended attribute as plain values: name, flags and data.
pub open spec fn xattr_view(x: ApfsRecoveredXattr) -> (Seq<char>, u16, Seq<u8>) {
    (x.name@, x.flags, x.data@)
}

/// A file's metadata as plain values: its path, its size and its extended
/// attributes.
pub type HeaderView = (Seq<char>, u64, Seq<(Seq<char>, u16, Seq<u8>)>);

/// A file's metadata as plain values: path, size and extended attributes.
pub open spec fn header_view(h: ApfsRecoveredFileHeader) -> HeaderView {
    (h.path@, h.size, h.xattrs@.map_values(|x: ApfsRecoveredXattr| xattr_view(x)))
}

/// A copy of a file's metadata.
pub fn copy_header(h: &ApfsRecoveredFileHeader) -> (r: ApfsRecoveredFileHeader)
    ensures
        header_view(r) == header_view(*h),
{
    let mut xattrs: Vec<ApfsRecoveredXattr> = Vec::new();
    let mut i: usize = 0;
    while i < h.xattrs.len()
        invariant
            i <= h.xattrs@.len(),
            xattrs@.len() == i,
            forall|j: int| 0 <= j < i ==> xattr_view(#[trigger] xattrs@[j]) == xattr_view(h.xattrs@[j]),
        decreases h.xattrs@.len() - i,
    {
        let x = &h.xattrs[i];
        let data = crate::bytes::copy_range(x.data.as_slice(), 0, x.data.len());
        assert(data@ =~= x.data@);
        xattrs.push(ApfsRecoveredXattr { name: crate::text::string_of(x.name.as_str()), flags: x.flags, data });
        i = i + 1;
    }
    let r = ApfsRecoveredFileHeader { path: crate::text::string_of(h.path.as_str()), size: h.size, xattrs };
    assert(r.xattrs@.map_values(|x: ApfsRecoveredXattr| xattr_view(x)) =~= h.xattrs@.map_values(
        |x: ApfsRecoveredXattr| xattr_view(x),
    ));
    r
}

/// Whether `ps` lie one after another from offset `a` to offset `b`,
/// without gap or overlap.
pub open spec fn tiles(ps: Seq<(u64, Seq<u8>)>, a: int, b: int) -> bool {
    &&& ps.len() == 0 ==> a == b
    &&& ps.len() > 0 ==> ps[0].0 == a && ps.last().0 + ps.last().1.len() == b
    &&& forall|k: int| 0 <= k < ps.len() - 1 ==> (#[trigger] ps[k]).0 + ps[k].1.len() == ps[k + 1].0
}

/// Pieces that tile `[a, b)` followed by pieces that tile `[b, c)` tile
/// `[a, c)`.
proof fn lemma_tiles_concat(x: Seq<(u64, Seq<u8>)>, y: Seq<(u64, Seq<u8>)>, a: int, b: int, c: int)
    requires
        tiles(x, a, b),
        tiles(y, b, c),
    ensures
        tiles(x + y, a, c),
{
    let z = x + y;
    assert forall|k: int| 0 <= k < z.len() - 1 implies (#[trigger] z[k]).0 + z[k].1.len() == z[k + 1].0 by {
        if k < x.len() - 1 {
            assert(z[k] == x[k] && z[k + 1] == x[k + 1]);
        } else if k == x.len() - 1 {
            assert(z[k] == x.last() && z[k + 1] == y[0]);
        } else {
            assert(z[k] == y[k - x.len()] && z[k + 1] == y[k - x.len() + 1]);
        }
    }
    if y.len() == 0 {
        assert(z == x);
    }
    if x.len() == 0 {
        assert(z == y);
    }
    if x.len() > 0 && y.len() > 0 {
        assert(z[0] == x[0] && z.last() == y.last());
    }
}

/// Zero chunks tile their span and hold only zeros.
proof fn lemma_zero_pieces_tile(start: int, count: int, chunk_size: int, done: int)
    requires
        chunk_size > 0,
        0 <= done <= count,
        0 <= start,
        start + count <= u64::MAX,
    ensures
        tiles(zero_pieces(start, count, chunk_size, done), start + done, start + count),
        forall|k: int|
            0 <= k < zero_pieces(start, count, chunk_size, done).len() ==> 0 < (#[trigger] zero_pieces(
                start,
                count,
                chunk_size,
                done,
            )[k]).1.len() <= chunk_size && zero_pieces(start, count, chunk_size, done)[k].1 == Seq::new(
                zero_pieces(start, count, chunk_size, done)[k].1.len(),
                |i: int| 0u8,
            ),
    decreases count - done,
{
    if done < count {
        let amount = if count - done < chunk_size {
            count - done
        } else {
            chunk_size
        };
        lemma_zero_pieces_tile(start, count, chunk_size, done + amount);
        let first = seq![((start + done) as u64, Seq::new(amount as nat, |i: int| 0u8))];
        let rest = zero_pieces(start, count, chunk_size, done + amount);
        let ps = zero_pieces(start, count, chunk_size, done);
        assert(ps == first + rest);
        assert(tiles(first, start + done, start + done + amount));
        lemma_tiles_concat(first, rest, start + done, start + done + amount, start + count);
        assert forall|k: int| 0 <= k < ps.len() implies 0 < (#[trigger] ps[k]).1.len() <= chunk_size && ps[k].1 == Seq::new(
            ps[k].1.len(),
            |i: int| 0u8,
        ) by {
            if k > 0 {
                assert(ps[k] == rest[k - 1]);
            } else {
                assert(ps[0].1 =~= Seq::new(ps[0].1.len(), |i: int| 0u8));
            }
        }
    }
}

/// An extent's chunks tile the part of it they cover.
proof fn lemma_extent_pieces_tile(e: ApfsFileExtent, src: int, contents: Seq<u8>, chunk_size: int, done: int, len: int)
    requires
        chunk_size > 0,
        0 <= done <= len,
        e.logical_offset + len <= u64::MAX,
        !e.sparse ==> 0 <= src && src + len <= contents.len(),
    ensures
        tiles(extent_pieces(e, src, contents, chunk_size, done, len), e.logical_offset + done, e.logical_offset + len),
    decreases len - done,
{
    if done < len {
        let amount = if len - done < chunk_size {
            len - done
        } else {
            chunk_size
        };
        lemma_extent_pieces_tile(e, src, contents, chunk_size, done + amount, len);
        let first = seq![
            (
                (e.logical_offset + done) as u64,
                crate::apfs::filesystem::extent_bytes(e, src, contents, done, amount),
            ),
        ];
        let rest = extent_pieces(e, src, contents, chunk_size, done + amount, len);
        assert(extent_pieces(e, src, contents, chunk_size, done, len) == first + rest);
        assert(first[0].1.len() == amount);
        assert(tiles(first, e.logical_offset + done, e.logical_offset + done + amount));
        lemma_tiles_concat(first, rest, e.logical_offset + done, e.logical_offset + done + amount, e.logical_offset + len);
    }
}

/// A chunk that `file_chunk` places, when every extent fits, holds the
/// rebuilt file's bytes at its offset.
proof fn lemma_file_chunk_whole(
    extents: Seq<ApfsFileExtent>,
    size: int,
    contents: Seq<u8>,
    base: int,
    end: int,
    block_size: int,
    chunk_size: int,
    o: int,
    c: Seq<u8>,
)
    requires
        layout_fits(extents, size, base, end, block_size, contents.len() as int),
        file_chunk(extents, size, contents, base, end, block_size, chunk_size, o, c),
    ensures
        c == assembled(extents, size as nat, contents, base, block_size).subrange(o, o + c.len()),
{
    assert(extents.take(extents.len() as int) == extents);
    lemma_fitting_prefix(extents, size, base, end, block_size, contents.len() as int, extents.len() as int);
}

/// What a stream of the first `n` extents has handed over, when every
/// extent fits: chunks that tile the file from 0 to the offset reached,
/// each holding the rebuilt file's bytes, the offset reached no further
/// than the end of the extents so far, and every mapped extent among them
/// ending by it.
#[verifier::spinoff_prover]
#[verifier::rlimit(60)]
proof fn lemma_stream_state(
    extents: Seq<ApfsFileExtent>,
    size: int,
    contents: Seq<u8>,
    base: int,
    end: int,
    block_size: int,
    chunk_size: int,
    n: int,
)
    requires
        layout_fits(extents, size, base, end, block_size, contents.len() as int),
        chunk_size > 0,
        base >= 0,
        block_size >= 0,
        0 <= size <= u64::MAX,
        0 <= n <= extents.len(),
    ensures
        ({
            let (p, next) = stream_state(extents, size, contents, base, block_size, chunk_size, n);
            let out = assembled(extents, size as nat, contents, base, block_size);
            &&& 0 <= next <= size
            &&& next <= previous_end(extents.take(n))
            &&& tiles(p, 0, next)
            &&& forall|k: int|
                0 <= k < p.len() ==> 0 < (#[trigger] p[k]).1.len() <= chunk_size && p[k].1 == out.subrange(
                    p[k].0 as int,
                    p[k].0 + p[k].1.len(),
                )
            &&& forall|j: int|
                0 <= j < n && (#[trigger] extents[j]).length != 0 && clipped_length(extents[j], size) > 0
                    ==> extents[j].logical_offset + clipped_length(extents[j], size) <= next
        }),
    decreases n,
{
    let cap = contents.len() as int;
    let out = assembled(extents, size as nat, contents, base, block_size);
    if n == 0 {
        assert(tiles(Seq::<(u64, Seq<u8>)>::empty(), 0, 0));
    } else {
        lemma_stream_state(extents, size, contents, base, end, block_size, chunk_size, n - 1);
        let i = n - 1;
        let e = extents[i];
        let (p0, next0) = stream_state(extents, size, contents, base, block_size, chunk_size, i);
        let len = clipped_length(e, size);
        lemma_fits_prefix(extents, size, base, end, block_size, cap, n);
        let t = extents.take(n);
        assert(t.drop_last() == extents.take(i));
        assert(t.last() == e);
        assert(extent_fits(e, previous_end(extents.take(i)), size, base, end, block_size, cap));
        let pe0 = previous_end(extents.take(i));
        if e.length != 0 {
            assert(previous_end(t) == e.logical_offset + e.length);
        } else {
            assert(previous_end(t) == pe0);
        }
        if len != 0 {
            assert(e.length != 0);
            let src = if e.sparse {
                0
            } else {
                extent_source(base, block_size, e)
            };
            if !e.sparse {
                assert(src >= 0) by (nonlinear_arith)
                    requires
                        src == extent_source(base, block_size, e),
                        base >= 0,
                        block_size >= 0,
                ;
            }
            let z = zero_pieces(next0, e.logical_offset - next0, chunk_size, 0);
            let x = extent_pieces(e, src, contents, chunk_size, 0, len);
            assert(next0 <= e.logical_offset);
            lemma_zero_pieces_tile(next0, e.logical_offset - next0, chunk_size, 0);
            lemma_extent_pieces_tile(e, src, contents, chunk_size, 0, len);
            lemma_extent_pieces_chunks(e, src, contents, chunk_size, 0, len);
            lemma_tiles_concat(p0, z, 0, next0, e.logical_offset as int);
            lemma_tiles_concat(p0 + z, x, 0, e.logical_offset as int, e.logical_offset + len);
            let p = p0 + z + x;
            assert(stream_state(extents, size, contents, base, block_size, chunk_size, n) == (p, e.logical_offset + len));
            lemma_gap_chunks(extents, size, contents, base, end, block_size, chunk_size, i, next0);
            assert forall|k: int| 0 <= k < x.len() implies 0 < (#[trigger] x[k]).1.len() <= chunk_size && x[k].1
                == out.subrange(x[k].0 as int, x[k].0 + x[k].1.len()) by {
                lemma_extent_chunk_in_file(
                    extents,
                    size,
                    contents,
                    base,
                    end,
                    block_size,
                    chunk_size,
                    i,
                    len,
                    src,
                    x[k].0 as int,
                    x[k].1,
                );
                lemma_file_chunk_whole(extents, size, contents, base, end, block_size, chunk_size, x[k].0 as int, x[k].1);
            }
            assert forall|k: int| 0 <= k < p.len() implies 0 < (#[trigger] p[k]).1.len() <= chunk_size && p[k].1
                == out.subrange(p[k].0 as int, p[k].0 + p[k].1.len()) by {
                if k < p0.len() {
                    assert(p[k] == p0[k]);
                } else if k < p0.len() + z.len() {
                    assert(p[k] == z[k - p0.len()]);
                } else {
                    assert(p[k] == x[k - p0.len() - z.len()]);
                }
            }
            assert forall|j: int|
                0 <= j < n && (#[trigger] extents[j]).length != 0 && clipped_length(extents[j], size) > 0
                    implies extents[j].logical_offset + clipped_length(extents[j], size) <= e.logical_offset + len by {
                if j < i {
                    assert(extents[j].logical_offset + clipped_length(extents[j], size) <= next0);
                }
            }
        } else {
            assert(stream_state(extents, size, contents, base, block_size, chunk_size, n) == (p0, next0));
            if e.length != 0 {
                assert(next0 <= pe0);
                assert(e.logical_offset >= pe0);
            }
        }
    }
}

/// The zero chunks of the gap between the offset a stream has reached and
/// mapped extent `i` hold the rebuilt file's bytes there.
proof fn lemma_gap_chunks(
    extents: Seq<ApfsFileExtent>,
    size: int,
    contents: Seq<u8>,
    base: int,
    end: int,
    block_size: int,
    chunk_size: int,
    i: int,
    next0: int,
)
    requires
        layout_fits(extents, size, base, end, block_size, contents.len() as int),
        chunk_size > 0,
        base >= 0,
        block_size >= 0,
        0 <= i < extents.len(),
        extents[i].length != 0,
        clipped_length(extents[i], size) > 0,
        0 <= next0 <= extents[i].logical_offset,
        forall|j: int|
            0 <= j < i && (#[trigger] extents[j]).length != 0 && clipped_length(extents[j], size) > 0
                ==> extents[j].logical_offset + clipped_length(extents[j], size) <= next0,
    ensures
        ({
            let z = zero_pieces(next0, extents[i].logical_offset - next0, chunk_size, 0);
            let out = assembled(extents, size as nat, contents, base, block_size);
            forall|k: int|
                0 <= k < z.len() ==> 0 < (#[trigger] z[k]).1.len() <= chunk_size && z[k].1 == out.subrange(
                    z[k].0 as int,
                    z[k].0 + z[k].1.len(),
                )
        }),
{
    let cap = contents.len() as int;
    let e = extents[i];
    let z = zero_pieces(next0, e.logical_offset - next0, chunk_size, 0);
    lemma_zero_pieces_tile(next0, e.logical_offset - next0, chunk_size, 0);
    assert forall|j: int|
        0 <= j < extents.len() && (#[trigger] extents[j]).length != 0 && clipped_length(extents[j], size) > 0
            implies extents[j].logical_offset + clipped_length(extents[j], size) <= next0
        || extents[j].logical_offset >= e.logical_offset by {
        if j > i {
            lemma_later_extent_starts_after(extents, size, base, end, block_size, cap, i, j);
        }
    }
    assert(extents.take(extents.len() as int) == extents);
    assert forall|k: int| 0 <= k < z.len() implies 0 < (#[trigger] z[k]).1.len() <= chunk_size && z[k].1 == assembled(
        extents,
        size as nat,
        contents,
        base,
        block_size,
    ).subrange(z[k].0 as int, z[k].0 + z[k].1.len()) by {
        lemma_tile_member(z, next0, e.logical_offset as int, k);
        lemma_zero_chunk_in_file(
            extents,
            size,
            contents,
            base,
            end,
            block_size,
            chunk_size,
            extents.len() as int,
            0,
            next0,
            e.logical_offset as int,
            z[k].0 as int,
            z[k].1,
        );
        lemma_file_chunk_whole(extents, size, contents, base, end, block_size, chunk_size, z[k].0 as int, z[k].1);
    }
}

/// Chunk `k` of pieces that tile `[a, b)` lies inside `[a, b)`.
proof fn lemma_tile_member(ps: Seq<(u64, Seq<u8>)>, a: int, b: int, k: int)
    requires
        tiles(ps, a, b),
        0 <= k < ps.len(),
        forall|j: int| 0 <= j < ps.len() ==> (#[trigger] ps[j]).1.len() > 0,
    ensures
        a <= ps[k].0,
        ps[k].0 + ps[k].1.len() <= b,
    decreases ps.len() - k,
{
    lemma_tile_lower(ps, a, b, k);
    if k < ps.len() - 1 {
        lemma_tile_member(ps, a, b, k + 1);
        assert(ps[k].0 + ps[k].1.len() == ps[k + 1].0);
    }
}

/// Chunk `k` of pieces that tile from `a` starts at `a` or later.
proof fn lemma_tile_lower(ps: Seq<(u64, Seq<u8>)>, a: int, b: int, k: int)
    requires
        tiles(ps, a, b),
        0 <= k < ps.len(),
        forall|j: int| 0 <= j < ps.len() ==> (#[trigger] ps[j]).1.len() > 0,
    ensures
        a <= ps[k].0,
    decreases k,
{
    if k > 0 {
        lemma_tile_lower(ps, a, b, k - 1);
        assert(ps[k - 1].0 + ps[k - 1].1.len() == ps[k].0);
    }
}

/// A mapped extent after extent `i` starts where extent `i` ends or later.
proof fn lemma_later_extent_starts_after(
    extents: Seq<ApfsFileExtent>,
    size: int,
    base: int,
    end: int,
    block_size: int,
    capacity: int,
    i: int,
    j: int,
)
    requires
        layout_fits(extents, size, base, end, block_size, capacity),
        0 <= i < j < extents.len(),
        extents[j].length != 0,
    ensures
        extents[i].length != 0 ==> extents[j].logical_offset >= extents[i].logical_offset + extents[i].length,
        extents[j].logical_offset >= previous_end(extents.take(i + 1)),
{
    lemma_fits_prefix(extents, size, base, end, block_size, capacity, j + 1);
    let u = extents.take(j + 1);
    assert(u.drop_last() == extents.take(j));
    assert(u.last() == extents[j]);
    lemma_previous_end(extents.take(j), size, base, end, block_size, capacity);
    assert(extents.take(j)[i] == extents[i]);
    lemma_previous_end_grows(extents, size, base, end, block_size, capacity, i + 1, j);
}

/// The end of the extents so far only grows.
proof fn lemma_previous_end_grows(
    extents: Seq<ApfsFileExtent>,
    size: int,
    base: int,
    end: int,
    block_size: int,
    capacity: int,
    m: int,
    j: int,
)
    requires
        layout_fits(extents, size, base, end, block_size, capacity),
        0 <= m <= j <= extents.len(),
    ensures
        previous_end(extents.take(m)) <= previous_end(extents.take(j)),
    decreases j - m,
{
    if m < j {
        lemma_previous_end_grows(extents, size, base, end, block_size, capacity, m, j - 1);
        lemma_fits_prefix(extents, size, base, end, block_size, capacity, j);
        let u = extents.take(j);
        assert(u.drop_last() == extents.take(j - 1));
        assert(u.last() == extents[j - 1]);
    }
}

/// A stream of a whole file, when every extent fits, hands over chunks that
/// tile the file from its first byte to its last, in order and without gap
/// or overlap, each of 1 to `chunk_size` bytes and each holding the bytes of
/// the file that `read_file_extents` rebuilds at its offset: together they
/// are that file.
pub proof fn lemma_stream_pieces_in_file(
    extents: Seq<ApfsFileExtent>,
    size: int,
    contents: Seq<u8>,
    base: int,
    end: int,
    block_size: int,
    chunk_size: int,
)
    requires
        layout_fits(extents, size, base, end, block_size, contents.len() as int),
        chunk_size > 0,
        base >= 0,
        block_size >= 0,
        0 <= size <= u64::MAX,
    ensures
        ({
            let ps = stream_pieces(extents, size, contents, base, block_size, chunk_size);
            let out = assembled(extents, size as nat, contents, base, block_size);
            &&& tiles(ps, 0, size)
            &&& forall|k: int|
                0 <= k < ps.len() ==> 0 < (#[trigger] ps[k]).1.len() <= chunk_size && ps[k].1 == out.subrange(
                    ps[k].0 as int,
                    ps[k].0 + ps[k].1.len(),
                )
        }),
{
    let cap = contents.len() as int;
    let n = extents.len() as int;
    lemma_stream_state(extents, size, contents, base, end, block_size, chunk_size, n);
    let (p, next) = stream_state(extents, size, contents, base, block_size, chunk_size, n);
    let z = zero_pieces(next, size - next, chunk_size, 0);
    let out = assembled(extents, size as nat, contents, base, block_size);
    lemma_zero_pieces_tile(next, size - next, chunk_size, 0);
    lemma_tiles_concat(p, z, 0, next, size);
    let ps = p + z;
    assert forall|k: int| 0 <= k < z.len() implies 0 < (#[trigger] z[k]).1.len() <= chunk_size && z[k].1 == out.subrange(
        z[k].0 as int,
        z[k].0 + z[k].1.len(),
    ) by {
        lemma_tile_member(z, next, size, k);
        assert(extents.take(n) == extents);
        lemma_zero_chunk_in_file(
            extents,
            size,
            contents,
            base,
            end,
            block_size,
            chunk_size,
            n,
            0,
            next,
            size,
            z[k].0 as int,
            z[k].1,
        );
        lemma_file_chunk_whole(extents, size, contents, base, end, block_size, chunk_size, z[k].0 as int, z[k].1);
    }
    assert forall|k: int| 0 <= k < ps.len() implies 0 < (#[trigger] ps[k]).1.len() <= chunk_size && ps[k].1 == out.subrange(
        ps[k].0 as int,
        ps[k].0 + ps[k].1.len(),
    ) by {
        if k < p.len() {
            assert(ps[k] == p[k]);
        } else {
            assert(ps[k] == z[k - p.len()]);
        }
    }
}

/// The chunks `ps`, each with the file metadata `h`.
pub open spec fn tag_pieces(h: HeaderView, ps: Seq<(u64, Seq<u8>)>) -> Seq<
    (HeaderView, u64, Seq<u8>),
> {
    ps.map_values(|p: (u64, Seq<u8>)| (h, p.0, p.1))
}

/// Tagging a concatenation tags each part.
pub proof fn lemma_tag_concat(
    h: HeaderView,
    a: Seq<(u64, Seq<u8>)>,
    b: Seq<(u64, Seq<u8>)>,
)
    ensures
        tag_pieces(h, a + b) == tag_pieces(h, a) + tag_pieces(h, b),
{
    assert(tag_pieces(h, a + b) =~= tag_pieces(h, a) + tag_pieces(h, b));
}

/// Takes the chunks of recovered files, each with its file's metadata.
pub trait FileChunkSink {
    /// The chunks taken so far, with their file's metadata and logical
    /// offset, in order.
    spec fn chunks(&self) -> Seq<(HeaderView, u64, Seq<u8>)>;

    /// Whether every chunk handed over is taken without error.
    spec fn takes_all(&self) -> bool;

    /// Takes the chunk of file `header` that starts at logical offset
    /// `offset`.
    fn take(&mut self, header: &ApfsRecoveredFileHeader, offset: u64, chunk: &[u8]) -> (r: RecoveryResult<()>)
        ensures
            final(self).chunks() == old(self).chunks().push((header_view(*header), offset, chunk@)),
            old(self).takes_all() ==> r is Ok && final(self).takes_all(),
    ;
}

/// A sink that keeps every file chunk in memory.
pub struct FileChunkLog {
    pub entries: Vec<(ApfsRecoveredFileHeader, u64, Vec<u8>)>,
}

impl FileChunkLog {
    /// An empty log.
    pub fn new() -> (log: FileChunkLog)
        ensures
            log.chunks() == Seq::<(HeaderView, u64, Seq<u8>)>::empty(),
            log.takes_all(),
    {
        let log = FileChunkLog { entries: Vec::new() };
        assert(log.chunks() =~= Seq::<(HeaderView, u64, Seq<u8>)>::empty());
        log
    }
}

impl FileChunkSink for FileChunkLog {
    open spec fn chunks(&self) -> Seq<(HeaderView, u64, Seq<u8>)> {
        self.entries@.map_values(|p: (ApfsRecoveredFileHeader, u64, Vec<u8>)| (header_view(p.0), p.1, p.2@))
    }

    open spec fn takes_all(&self) -> bool {
        true
    }

    fn take(&mut self, header: &ApfsRecoveredFileHeader, offset: u64, chunk: &[u8]) -> (r: RecoveryResult<()>) {
        let copy = crate::bytes::copy_range(chunk, 0, chunk.len());
        assert(copy@ =~= chunk@);
        let h = copy_header(header);
        let ghost before = self.chunks();
        self.entries.push((h, offset, copy));
        assert(self.chunks() =~= before.push((header_view(*header), offset, chunk@)));
        Ok(())
    }
}

/// Hands `count` zero bytes from logical offset `start` to `sink`, in
/// chunks of at most `chunk_size` bytes.
fn sink_zeros<S: FileChunkSink>(header: &ApfsRecoveredFileHeader, start: u64, count: u64, chunk_size: usize, sink: &mut S) -> (r:
    RecoveryResult<()>)
    requires
        chunk_size > 0,
        start + count <= u64::MAX,
    ensures
        r is Ok ==> final(sink).chunks() == old(sink).chunks() + tag_pieces(
            header_view(*header),
            zero_pieces(start as int, count as int, chunk_size as int, 0),
        ),
        old(sink).takes_all() ==> r is Ok && final(sink).takes_all(),
{
    let ghost h = header_view(*header);
    let ghost first = sink.chunks();
    let ghost all = zero_pieces(start as int, count as int, chunk_size as int, 0);
    let mut done: u64 = 0;
    while done < count
        invariant
            chunk_size > 0,
            done <= count,
            start + count <= u64::MAX,
            h == header_view(*header),
            sink.chunks() + tag_pieces(h, zero_pieces(start as int, count as int, chunk_size as int, done as int))
                == first + tag_pieces(h, all),
            all == zero_pieces(start as int, count as int, chunk_size as int, 0),
            old(sink).takes_all() ==> sink.takes_all(),
        decreases count - done,
    {
        let left = count - done;
        let amount: u64 = if left < chunk_size as u64 {
            left
        } else {
            chunk_size as u64
        };
        let zeros = vec![0u8; amount as usize];
        let ghost piece = ((start + done) as u64, Seq::new(amount as nat, |i: int| 0u8));
        assert(zeros@ =~= piece.1);
        let ghost rest = zero_pieces(start as int, count as int, chunk_size as int, (done + amount) as int);
        assert(zero_pieces(start as int, count as int, chunk_size as int, done as int) == seq![piece] + rest);
        proof {
            lemma_tag_concat(h, seq![piece], rest);
        }
        let ghost before = sink.chunks();
        sink.take(header, start + done, zeros.as_slice())?;
        assert(tag_pieces(h, seq![piece]) =~= seq![(h, piece.0, piece.1)]);
        assert(sink.chunks() + tag_pieces(h, rest) =~= before + tag_pieces(h, seq![piece] + rest));
        done = done + amount;
    }
    assert(tag_pieces(h, zero_pieces(start as int, count as int, chunk_size as int, done as int)) =~= Seq::<
        (HeaderView, u64, Seq<u8>),
    >::empty());
    assert(sink.chunks() =~= first + tag_pieces(h, all));
    Ok(())
}

/// Hands the first `len` bytes of one checked extent to `sink` in chunks of
/// at most `chunk_size` bytes.
fn sink_extent<D: BlockDevice, S: FileChunkSink>(
    device: &D,
    header: &ApfsRecoveredFileHeader,
    e: &ApfsFileExtent,
    src: u64,
    len: u64,
    chunk_size: usize,
    sink: &mut S,
) -> (r: RecoveryResult<()>)
    requires
        chunk_size > 0,
        len != 0 && !e.sparse ==> src + len <= u64::MAX && src + len <= device.contents().len(),
        len != 0 ==> e.logical_offset + len <= u64::MAX,
    ensures
        r is Ok ==> final(sink).chunks() == old(sink).chunks() + tag_pieces(
            header_view(*header),
            extent_pieces(*e, src as int, device.contents(), chunk_size as int, 0, len as int),
        ),
        r is Ok && old(sink).takes_all() ==> final(sink).takes_all(),
        readable(device) && old(sink).takes_all() ==> r is Ok,
{
    let ghost h = header_view(*header);
    let ghost first = sink.chunks();
    let ghost contents = device.contents();
    let ghost all = extent_pieces(*e, src as int, contents, chunk_size as int, 0, len as int);
    let mut done: u64 = 0;
    while done < len
        invariant
            chunk_size > 0,
            done <= len,
            contents == device.contents(),
            h == header_view(*header),
            len != 0 && !e.sparse ==> src + len <= u64::MAX && src + len <= device.contents().len(),
            len != 0 ==> e.logical_offset + len <= u64::MAX,
            sink.chunks() + tag_pieces(h, extent_pieces(*e, src as int, contents, chunk_size as int, done as int, len as int))
                == first + tag_pieces(h, all),
            all == extent_pieces(*e, src as int, contents, chunk_size as int, 0, len as int),
            old(sink).takes_all() ==> sink.takes_all(),
        decreases len - done,
    {
        let remaining = len - done;
        let amount: u64 = if remaining < chunk_size as u64 {
            remaining
        } else {
            chunk_size as u64
        };
        let chunk = if e.sparse {
            vec![0u8; amount as usize]
        } else {
            crate::device::read_exact(device, src + done, amount)?
        };
        let ghost piece = (
            (e.logical_offset + done) as u64,
            crate::apfs::filesystem::extent_bytes(*e, src as int, contents, done as int, amount as int),
        );
        assert(chunk@ =~= piece.1);
        let ghost rest = extent_pieces(*e, src as int, contents, chunk_size as int, (done + amount) as int, len as int);
        assert(extent_pieces(*e, src as int, contents, chunk_size as int, done as int, len as int) == seq![piece] + rest);
        proof {
            lemma_tag_concat(h, seq![piece], rest);
        }
        let ghost before = sink.chunks();
        sink.take(header, e.logical_offset + done, chunk.as_slice())?;
        assert(tag_pieces(h, seq![piece]) =~= seq![(h, piece.0, piece.1)]);
        assert(sink.chunks() + tag_pieces(h, rest) =~= before + tag_pieces(h, seq![piece] + rest));
        done = done + amount;
    }
    assert(tag_pieces(h, extent_pieces(*e, src as int, contents, chunk_size as int, done as int, len as int)) =~= Seq::<
        (HeaderView, u64, Seq<u8>),
    >::empty());
    assert(sink.chunks() =~= first + tag_pieces(h, all));
    Ok(())
}

/// Streams one regular file to `sink`: each extent's bytes in logical
/// order, with the gaps between extents and the unmapped tail handed over
/// as zeros.
fn sink_stream<D: BlockDevice, S: FileChunkSink>(
    device: &D,
    container_range: ByteRange,
    block_size: u32,
    extents: &[ApfsFileExtent],
    header: &ApfsRecoveredFileHeader,
    chunk_size: usize,
    sink: &mut S,
) -> (r: RecoveryResult<()>)
    requires
        chunk_size > 0,
    ensures
        r is Ok ==> final(sink).chunks() == old(sink).chunks() + tag_pieces(
            header_view(*header),
            stream_pieces(
                extents@,
                header.size as int,
                device.contents(),
                container_range.offset as int,
                block_size as int,
                chunk_size as int,
            ),
        ),
        old(sink).takes_all() && readable(device) && is_pow2(block_size as int) && header.size <= container_range.length
            && container_range.spec_end() <= u64::MAX && layout_fits(
            extents@,
            header.size as int,
            container_range.offset as int,
            container_range.spec_end(),
            block_size as int,
            device.contents().len() as int,
        ) ==> r is Ok,
        r is Ok && old(sink).takes_all() ==> final(sink).takes_all(),
        !is_pow2(block_size as int) || header.size > container_range.length ==> r is Err,
{
    if !pow2_u64(block_size as u64) {
        return Err(io_error("invalid APFS block size"));
    }
    if header.size > container_range.length {
        return Err(RecoveryError::OutOfRange { offset: 0, length: header.size, capacity: container_range.length });
    }
    let container_end = container_range.end()?;
    let capacity = device.capacity();
    let ghost h = header_view(*header);
    let ghost first = sink.chunks();
    let ghost contents = device.contents();
    let ghost base = container_range.offset as int;
    let ghost size = header.size as int;
    let mut next: u64 = 0;
    let mut prev: u64 = 0;
    let mut i: usize = 0;
    while i < extents.len()
        invariant
            i <= extents@.len(),
            chunk_size > 0,
            next <= header.size,
            next <= prev,
            h == header_view(*header),
            contents == device.contents(),
            base == container_range.offset as int,
            size == header.size as int,
            container_end == container_range.spec_end(),
            capacity == device.contents().len(),
            prev == previous_end(extents@.take(i as int)),
            layout_fits(extents@.take(i as int), size, base, container_end as int, block_size as int, capacity as int),
            forall|j: int|
                0 <= j < i && (#[trigger] extents@[j]).length != 0 && clipped_length(extents@[j], size) > 0 ==> extents@[j].logical_offset
                    + clipped_length(extents@[j], size) <= next,
            stream_state(extents@, size, contents, base, block_size as int, chunk_size as int, i as int).1 == next,
            sink.chunks() == first + tag_pieces(
                h,
                stream_state(extents@, size, contents, base, block_size as int, chunk_size as int, i as int).0,
            ),
            old(sink).takes_all() ==> sink.takes_all(),
        decreases extents@.len() - i,
    {
        let e = extents[i];
        assert(extents@.take(i + 1).drop_last() == extents@.take(i as int));
        assert(extents@.take(i + 1).last() == e);
        proof {
            if layout_fits(extents@, size, base, container_end as int, block_size as int, capacity as int) {
                lemma_fits_prefix(extents@, size, base, container_end as int, block_size as int, capacity as int, i + 1);
            }
        }
        let ghost st = stream_state(extents@, size, contents, base, block_size as int, chunk_size as int, i as int);
        let (src, len) = check_extent(&e, prev, header.size, container_range.offset, container_end, block_size, capacity)?;
        if e.length != 0 {
            prev = e.logical_offset + e.length;
        }
        if len != 0 {
            let ghost mid = sink.chunks();
            sink_zeros(header, next, e.logical_offset - next, chunk_size, sink)?;
            let ghost mid2 = sink.chunks();
            sink_extent(device, header, &e, src, len, chunk_size, sink)?;
            proof {
                let z = zero_pieces(next as int, e.logical_offset - next, chunk_size as int, 0);
                let x = extent_pieces(e, src as int, contents, chunk_size as int, 0, len as int);
                assert(extents@[i as int] == e);
                lemma_tag_concat(h, st.0, z);
                lemma_tag_concat(h, st.0 + z, x);
                assert(stream_state(extents@, size, contents, base, block_size as int, chunk_size as int, i + 1).0 == st.0 + z + x);
                assert(sink.chunks() =~= first + tag_pieces(h, st.0 + z + x));
            }
            next = e.logical_offset + len;
        } else {
            assert(extents@[i as int] == e);
        }
        i = i + 1;
    }
    assert(extents@.take(extents@.len() as int) == extents@);
    let ghost st = stream_state(extents@, size, contents, base, block_size as int, chunk_size as int, extents@.len() as int);
    sink_zeros(header, next, header.size - next, chunk_size, sink)?;
    proof {
        lemma_tag_concat(h, st.0, zero_pieces(next as int, size - next, chunk_size as int, 0));
    }
    Ok(())
}

/// Whether `heads` are the metadata of `entries`, one for one.
pub open spec fn headers_of_entries(
    heads: Seq<ApfsRecoveredFileHeader>,
    entries: Seq<ApfsDirectoryEntry>,
    index: ApfsFilesystemIndex,
) -> bool {
    &&& heads.len() == entries.len()
    &&& forall|k: int| 0 <= k < heads.len() ==> #[trigger] file_header_from(heads[k], index, entries[k])
}

/// The chunks of the files of the first `n` of `entries`, whose metadata
/// are `heads`, file after file, each whole file streamed in logical order.
pub open spec fn entries_chunks<D: BlockDevice>(
    index: ApfsFilesystemIndex,
    entries: Seq<ApfsDirectoryEntry>,
    heads: Seq<ApfsRecoveredFileHeader>,
    device: &D,
    container_range: ByteRange,
    block_size: u32,
    chunk_size: int,
    n: int,
) -> Seq<(HeaderView, u64, Seq<u8>)>
    decreases n,
{
    if n <= 0 {
        Seq::empty()
    } else {
        entries_chunks(index, entries, heads, device, container_range, block_size, chunk_size, n - 1) + tag_pieces(
            header_view(heads[n - 1]),
            stream_pieces(
                stream_extents(index, index.inodes@[entries[n - 1].file_id].private_id),
                heads[n - 1].size as int,
                device.contents(),
                container_range.offset as int,
                block_size as int,
                chunk_size,
            ),
        )
    }
}

/// The chunks of the first `n` files depend only on those files.
proof fn lemma_entries_chunks_prefix<D: BlockDevice>(
    index: ApfsFilesystemIndex,
    e1: Seq<ApfsDirectoryEntry>,
    h1: Seq<ApfsRecoveredFileHeader>,
    e2: Seq<ApfsDirectoryEntry>,
    h2: Seq<ApfsRecoveredFileHeader>,
    device: &D,
    container_range: ByteRange,
    block_size: u32,
    chunk_size: int,
    n: int,
)
    requires
        n <= e1.len(),
        n <= e2.len(),
        n <= h1.len(),
        n <= h2.len(),
        forall|j: int| 0 <= j < n ==> e1[j] == e2[j] && h1[j] == h2[j],
    ensures
        entries_chunks(index, e1, h1, device, container_range, block_size, chunk_size, n) == entries_chunks(
            index,
            e2,
            h2,
            device,
            container_range,
            block_size,
            chunk_size,
            n,
        ),
    decreases n,
{
    if n > 0 {
        lemma_entries_chunks_prefix(index, e1, h1, e2, h2, device, container_range, block_size, chunk_size, n - 1);
    }
}

/// Whether `chunks` are exactly the chunks of every regular file of the
/// index, file after file in directory-record order, each file whole and in
/// logical order.
pub open spec fn all_regular_chunks<D: BlockDevice>(
    chunks: Seq<(HeaderView, u64, Seq<u8>)>,
    index: ApfsFilesystemIndex,
    device: &D,
    container_range: ByteRange,
    block_size: u32,
    chunk_size: int,
) -> bool {
    let entries = regular_entries(index, index.directories@.len() as int);
    exists|heads: Seq<ApfsRecoveredFileHeader>|
        #[trigger] headers_of_entries(heads, entries, index) && chunks == entries_chunks(
            index,
            entries,
            heads,
            device,
            container_range,
            block_size,
            chunk_size,
            entries.len() as int,
        )
}

/// Streams every regular file in bounded chunks. `sink` receives the
/// file's metadata and one `(logical_offset, chunk)` at a time, in logical
/// order, holes and unmapped ranges as zeros; at most `chunk_size` file
/// bytes are held at once. A zero chunk size is refused.
pub fn for_each_regular_file_chunk<D: BlockDevice, S: FileChunkSink>(
    index: &ApfsFilesystemIndex,
    device: &D,
    container_range: ByteRange,
    block_size: u32,
    chunk_size: usize,
    sink: &mut S,
) -> (r: RecoveryResult<()>)
    ensures
        chunk_size == 0 ==> r is Err,
        r is Ok ==> exists|taken: Seq<(HeaderView, u64, Seq<u8>)>|
            #[trigger] all_regular_chunks(taken, *index, device, container_range, block_size, chunk_size as int)
                && final(sink).chunks() == old(sink).chunks() + taken,
        chunk_size > 0 && readable(device) && index_recoverable(*index, device.contents(), container_range, block_size)
            && old(sink).takes_all() ==> r is Ok,
        (exists|j: int|
            0 <= j < index.directories@.len() && is_regular_entry(*index, #[trigger] index.directories@[j])
                && entry_path(*index, index.directories@[j]) is None) ==> r is Err,
{
    if chunk_size == 0 {
        return Err(io_error("invalid APFS file chunk size"));
    }
    let ghost first = sink.chunks();
    let ghost mut heads: Seq<ApfsRecoveredFileHeader> = Seq::empty();
    let mut i: usize = 0;
    while i < index.directories.len()
        invariant
            i <= index.directories@.len(),
            chunk_size > 0,
            forall|j: int|
                0 <= j < i && is_regular_entry(*index, #[trigger] index.directories@[j]) ==> entry_path(
                    *index,
                    index.directories@[j],
                ) is Some,
            headers_of_entries(heads, regular_entries(*index, i as int), *index),
            sink.chunks() == first + entries_chunks(
                *index,
                regular_entries(*index, i as int),
                heads,
                device,
                container_range,
                block_size,
                chunk_size as int,
                heads.len() as int,
            ),
            old(sink).takes_all() ==> sink.takes_all(),
        decreases index.directories@.len() - i,
    {
        let entry = &index.directories[i];
        let ghost prior = regular_entries(*index, i as int);
        assert(index_recoverable(*index, device.contents(), container_range, block_size) ==> entry_recoverable(
            *index,
            index.directories@[i as int],
            device.contents(),
            container_range,
            block_size,
        ));
        let header = match regular_file_metadata(index, entry)? {
            Some(h) => h,
            None => {
                assert(regular_entries(*index, i + 1) == prior);
                i = i + 1;
                continue;
            },
        };
        let inode = match index.inodes.get(&entry.file_id) {
            Some(v) => v,
            None => return Err(io_error("APFS regular file lost its inode")),
        };
        let empty: Vec<ApfsFileExtent> = Vec::new();
        let extents = match index.extents.get(&inode.private_id) {
            Some(v) => v,
            None => &empty,
        };
        assert(extents@ == stream_extents(*index, inode.private_id));
        let ghost before = sink.chunks();
        sink_stream(device, container_range, block_size, extents.as_slice(), &header, chunk_size, sink)?;
        proof {
            let e2 = prior.push(*entry);
            let h2 = heads.push(header);
            assert(index.directories@[i as int] == *entry);
            assert(regular_entries(*index, i + 1) == e2);
            lemma_entries_chunks_prefix(
                *index,
                prior,
                heads,
                e2,
                h2,
                device,
                container_range,
                block_size,
                chunk_size as int,
                heads.len() as int,
            );
            assert forall|k: int| 0 <= k < h2.len() implies #[trigger] file_header_from(h2[k], *index, e2[k]) by {
                if k < heads.len() {
                    assert(h2[k] == heads[k] && e2[k] == prior[k]);
                }
            }
            heads = h2;
        }
        i = i + 1;
    }
    proof {
        let entries = regular_entries(*index, index.directories@.len() as int);
        let taken = entries_chunks(
            *index,
            entries,
            heads,
            device,
            container_range,
            block_size,
            chunk_size as int,
            entries.len() as int,
        );
        assert(headers_of_entries(heads, entries, *index));
        assert(all_regular_chunks(taken, *index, device, container_range, block_size, chunk_size as int));
    }
    Ok(())
}


/// Whether `f` is the file recovered from directory entry `entry`.
pub open spec fn recovered_file_from<D: BlockDevice>(
    f: ApfsRecoveredFile,
    index: ApfsFilesystemIndex,
    entry: ApfsDirectoryEntry,
    device: &D,
    container_range: ByteRange,
    block_size: u32,
) -> bool {
    let inode = index.inodes@[entry.file_id];
    &&& is_regular_entry(index, entry)
    &&& entry_path(index, entry) == Some(f.path@)
    &&& f.size == inode.data_stream_size->0
    &&& f.data@ == assembled(
        stream_extents(index, inode.private_id),
        f.size as nat,
        device.contents(),
        container_range.offset as int,
        block_size as int,
    )
    &&& f.xattrs@.len() == entry_xattrs(index, entry).len()
    &&& forall|i: int| 0 <= i < f.xattrs@.len() ==> recovered_xattr(#[trigger] f.xattrs@[i], entry_xattrs(index, entry)[i])
}

/// Whether `f` was recovered from some directory entry of the index.
pub open spec fn recovered_from_index<D: BlockDevice>(
    f: ApfsRecoveredFile,
    index: ApfsFilesystemIndex,
    device: &D,
    container_range: ByteRange,
    block_size: u32,
) -> bool {
    exists|j: int|
        0 <= j < index.directories@.len() && #[trigger] recovered_file_from(
            f,
            index,
            index.directories@[j],
            device,
            container_range,
            block_size,
        )
}

/// The regular-file entries among the first `n` directory entries of the
/// index, in directory-record order.
pub open spec fn regular_entries(index: ApfsFilesystemIndex, n: int) -> Seq<ApfsDirectoryEntry>
    decreases n,
{
    if n <= 0 {
        Seq::empty()
    } else if is_regular_entry(index, index.directories@[n - 1]) {
        regular_entries(index, n - 1).push(index.directories@[n - 1])
    } else {
        regular_entries(index, n - 1)
    }
}

/// Whether `files` are the files recovered from `entries`, one for one and
/// in order.
pub open spec fn files_of_entries<D: BlockDevice>(
    files: Seq<ApfsRecoveredFile>,
    entries: Seq<ApfsDirectoryEntry>,
    index: ApfsFilesystemIndex,
    device: &D,
    container_range: ByteRange,
    block_size: u32,
) -> bool {
    &&& files.len() == entries.len()
    &&& forall|k: int|
        0 <= k < files.len() ==> #[trigger] recovered_file_from(files[k], index, entries[k], device, container_range, block_size)
}

/// Whether `files` are exactly the regular files of the index, in
/// directory-record order.
pub open spec fn all_regular_files<D: BlockDevice>(
    files: Seq<ApfsRecoveredFile>,
    index: ApfsFilesystemIndex,
    device: &D,
    container_range: ByteRange,
    block_size: u32,
) -> bool {
    files_of_entries(
        files,
        regular_entries(index, index.directories@.len() as int),
        index,
        device,
        container_range,
        block_size,
    )
}

/// Recovers the file a directory entry names, or `None` when it is not a
/// regular file with a known size.
fn recover_entry<D: BlockDevice>(
    index: &ApfsFilesystemIndex,
    entry: &ApfsDirectoryEntry,
    device: &D,
    container_range: ByteRange,
    block_size: u32,
) -> (r: RecoveryResult<Option<ApfsRecoveredFile>>)
    ensures
        !is_regular_entry(*index, *entry) ==> r matches Ok(None),
        is_regular_entry(*index, *entry) && entry_path(*index, *entry) is None ==> r is Err,
        r matches Ok(Some(f)) ==> recovered_file_from(f, *index, *entry, device, container_range, block_size),
        is_regular_entry(*index, *entry) ==> r matches Ok(Some(_)) || r is Err,
        readable(device) && entry_recoverable(*index, *entry, device.contents(), container_range, block_size) ==> r is Ok,
{
    let inode = match index.inodes.get(&entry.file_id) {
        Some(v) => v,
        None => return Ok(None),
    };
    if !is_regular_file_mode(inode.mode) {
        return Ok(None);
    }
    let size = match inode.data_stream_size {
        Some(v) => v,
        None => return Ok(None),
    };
    let path = index.path_for_entry(entry)?;
    let data = index.read_entry_data(device, container_range, block_size, entry)?;
    let xattrs = recover_xattrs(index, entry);
    Ok(Some(ApfsRecoveredFile { path, size, data, xattrs }))
}

/// Takes whole recovered files, one at a time.
pub trait FileSink {
    /// The files taken so far, in order.
    spec fn files(&self) -> Seq<ApfsRecoveredFile>;

    /// Whether every file handed over is taken without error.
    spec fn takes_all(&self) -> bool;

    /// Takes one recovered file.
    fn take(&mut self, file: ApfsRecoveredFile) -> (r: RecoveryResult<()>)
        ensures
            final(self).files() == old(self).files().push(file),
            old(self).takes_all() ==> r is Ok && final(self).takes_all(),
    ;
}

/// A sink that keeps every file in memory.
pub struct FileLog {
    pub files: Vec<ApfsRecoveredFile>,
}

impl FileLog {
    /// An empty log.
    pub fn new() -> (log: FileLog)
        ensures
            log.files() == Seq::<ApfsRecoveredFile>::empty(),
            log.takes_all(),
    {
        FileLog { files: Vec::new() }
    }
}

impl FileSink for FileLog {
    open spec fn files(&self) -> Seq<ApfsRecoveredFile> {
        self.files@
    }

    open spec fn takes_all(&self) -> bool {
        true
    }

    fn take(&mut self, file: ApfsRecoveredFile) -> (r: RecoveryResult<()>) {
        self.files.push(file);
        Ok(())
    }
}

/// Hands every regular file in the index to `sink`, fully rebuilt, one at
/// a time and in directory-record order, so the whole volume is never held
/// in memory.
pub fn for_each_regular_file<D: BlockDevice, S: FileSink>(
    index: &ApfsFilesystemIndex,
    device: &D,
    container_range: ByteRange,
    block_size: u32,
    sink: &mut S,
) -> (r: RecoveryResult<()>)
    ensures
        (exists|j: int|
            0 <= j < index.directories@.len() && is_regular_entry(*index, #[trigger] index.directories@[j])
                && entry_path(*index, index.directories@[j]) is None) ==> r is Err,
        r is Ok ==> exists|files: Seq<ApfsRecoveredFile>|
            #[trigger] all_regular_files(files, *index, device, container_range, block_size) && final(sink).files()
                == old(sink).files() + files,
        readable(device) && index_recoverable(*index, device.contents(), container_range, block_size)
            && old(sink).takes_all() ==> r is Ok,
{
    let ghost start = sink.files();
    let ghost start_ok = sink.takes_all();
    let ghost mut taken: Seq<ApfsRecoveredFile> = Seq::empty();
    let mut i: usize = 0;
    while i < index.directories.len()
        invariant
            i <= index.directories@.len(),
            forall|j: int|
                0 <= j < i && is_regular_entry(*index, #[trigger] index.directories@[j]) ==> entry_path(
                    *index,
                    index.directories@[j],
                ) is Some,
            files_of_entries(taken, regular_entries(*index, i as int), *index, device, container_range, block_size),
            sink.files() == start + taken,
            start_ok == old(sink).takes_all(),
            start_ok ==> sink.takes_all(),
        decreases index.directories@.len() - i,
    {
        let ghost prior = regular_entries(*index, i as int);
        match recover_entry(index, &index.directories[i], device, container_range, block_size)? {
            Some(file) => {
                let ghost before = taken;
                proof {
                    taken = before.push(file);
                    assert(regular_entries(*index, i + 1) == prior.push(index.directories@[i as int]));
                    assert forall|k: int| 0 <= k < taken.len() implies #[trigger] recovered_file_from(
                        taken[k],
                        *index,
                        regular_entries(*index, i + 1)[k],
                        device,
                        container_range,
                        block_size,
                    ) by {
                        if k < before.len() {
                            assert(taken[k] == before[k]);
                        }
                    }
                }
                sink.take(file)?;
                assert(sink.files() == start + taken);
            },
            None => {
                assert(regular_entries(*index, i + 1) == prior);
            },
        }
        i = i + 1;
    }
    assert(all_regular_files(taken, *index, device, container_range, block_size));
    Ok(())
}

/// Recovers every regular file in the index, in directory-record order,
/// collected in memory. `for_each_regular_file_chunk` suits large
/// recoveries that write each file as it goes.
#[verifier::loop_isolation(false)]
pub fn recover_regular_files<D: BlockDevice>(
    index: &ApfsFilesystemIndex,
    device: &D,
    container_range: ByteRange,
    block_size: u32,
) -> (r: RecoveryResult<Vec<ApfsRecoveredFile>>)
    ensures
        (exists|j: int|
            0 <= j < index.directories@.len() && is_regular_entry(*index, #[trigger] index.directories@[j])
                && entry_path(*index, index.directories@[j]) is None) ==> r is Err,
        r matches Ok(files) ==> forall|k: int|
            0 <= k < files@.len() ==> #[trigger] recovered_from_index(files@[k], *index, device, container_range, block_size),
        r matches Ok(files) ==> all_regular_files(files@, *index, device, container_range, block_size),
        readable(device) && index_recoverable(*index, device.contents(), container_range, block_size) ==> r is Ok,
{
    let mut files: Vec<ApfsRecoveredFile> = Vec::new();
    let mut i: usize = 0;
    while i < index.directories.len()
        invariant
            i <= index.directories@.len(),
            forall|j: int|
                0 <= j < i && is_regular_entry(*index, #[trigger] index.directories@[j]) ==> entry_path(
                    *index,
                    index.directories@[j],
                ) is Some,
            forall|k: int|
                0 <= k < files@.len() ==> #[trigger] recovered_from_index(files@[k], *index, device, container_range, block_size),
            files_of_entries(files@, regular_entries(*index, i as int), *index, device, container_range, block_size),
        decreases index.directories@.len() - i,
    {
        let ghost prior = regular_entries(*index, i as int);
        match recover_entry(index, &index.directories[i], device, container_range, block_size)? {
            Some(file) => {
                let ghost before = files@;
                files.push(file);
                assert(regular_entries(*index, i + 1) == prior.push(index.directories@[i as int]));
                assert forall|k: int| 0 <= k < files@.len() implies #[trigger] recovered_file_from(
                    files@[k],
                    *index,
                    regular_entries(*index, i + 1)[k],
                    device,
                    container_range,
                    block_size,
                ) by {
                    if k < before.len() {
                        assert(files@[k] == before[k]);
                    }
                }
                assert forall|k: int| 0 <= k < files@.len() implies #[trigger] recovered_from_index(
                    files@[k],
                    *index,
                    device,
                    container_range,
                    block_size,
                ) by {
                    if k < before.len() {
                        assert(files@[k] == before[k]);
                    } else {
                        assert(recovered_file_from(files@[k], *index, index.directories@[i as int], device, container_range, block_size));
                    }
                }
            },
            None => {
                assert(regular_entries(*index, i + 1) == prior);
            },
        }
        i = i + 1;
    }
    Ok(files)
}

/// Whether two strings hold the same text.
fn same_text(a: &str, b: &str) -> (r: bool)
    ensures
        r == (a@ == b@),
{
    let x = crate::text::chars_of(a);
    let y = crate::text::chars_of(b);
    if x.len() != y.len() {
        return false;
    }
    let mut i: usize = 0;
    while i < x.len()
        invariant
            i <= x@.len(),
            x@.len() == y@.len(),
            x@ == a@,
            y@ == b@,
            forall|j: int| 0 <= j < i ==> x@[j] == y@[j],
        decreases x@.len() - i,
    {
        if x[i] != y[i] {
            assert(x@[i as int] != y@[i as int]);
            assert(x@ != y@);
            return false;
        }
        i = i + 1;
    }
    assert(x@ =~= y@);
    true
}

/// The first directory entry whose path is `path`.
#[verifier::loop_isolation(false)]
pub fn find_entry_by_path<'a>(index: &'a ApfsFilesystemIndex, path: &str) -> (r: RecoveryResult<
    Option<&'a ApfsDirectoryEntry>,
>)
    ensures
        r matches Ok(Some(e)) ==> exists|j: int|
            0 <= j < index.directories@.len() && *e == #[trigger] index.directories@[j] && entry_path(*index, *e)
                == Some(path@),
        r matches Ok(None) ==> forall|j: int|
            0 <= j < index.directories@.len() ==> entry_path(*index, #[trigger] index.directories@[j]) != Some(
                path@,
            ),
        r is Err ==> exists|j: int|
            0 <= j < index.directories@.len() && entry_path(*index, #[trigger] index.directories@[j]) is None,
        (forall|j: int| 0 <= j < index.directories@.len() ==> entry_path(*index, #[trigger] index.directories@[j]) is Some)
            ==> r is Ok,
{
    let mut i: usize = 0;
    while i < index.directories.len()
        invariant
            i <= index.directories@.len(),
            forall|j: int|
                0 <= j < i ==> entry_path(*index, #[trigger] index.directories@[j]) != Some(path@),
        decreases index.directories@.len() - i,
    {
        assert(entry_path(*index, index.directories@[i as int]) is None ==> exists|j: int|
            0 <= j < index.directories@.len() && entry_path(*index, #[trigger] index.directories@[j]) is None);
        let candidate = index.path_for_entry(&index.directories[i])?;
        if same_text(candidate.as_str(), path) {
            return Ok(Some(&index.directories[i]));
        }
        i = i + 1;
    }
    Ok(None)
}

/// The bytes of a file's extents one after another, each cut off at the
/// file's `size`: holes as zeros, empty extents and the gaps between extents
/// left out.
pub open spec fn extent_bytes(
    extents: Seq<ApfsFileExtent>,
    size: int,
    contents: Seq<u8>,
    base: int,
    block_size: int,
) -> Seq<u8>
    decreases extents.len(),
{
    if extents.len() == 0 {
        Seq::empty()
    } else {
        let prev = extent_bytes(extents.drop_last(), size, contents, base, block_size);
        let e = extents.last();
        let len = crate::apfs::filesystem::clipped_length(e, size);
        if e.length == 0 || len == 0 {
            prev
        } else if e.sparse {
            prev + Seq::new(len as nat, |i: int| 0u8)
        } else {
            let src = crate::apfs::filesystem::extent_source(base, block_size, e);
            prev + contents.subrange(src, src + len)
        }
    }
}

/// Whether a directory entry names a symbolic link.
pub open spec fn is_symlink_entry(index: ApfsFilesystemIndex, entry: ApfsDirectoryEntry) -> bool {
    &&& index.inodes@.contains_key(entry.file_id)
    &&& index.inodes@[entry.file_id].mode & S_IFMT == S_IFLNK
}

/// Whether the entry, if it names a symbolic link, has a path and data that
/// reads whole as well-formed UTF-8 of the recorded size.
pub open spec fn link_recoverable(
    index: ApfsFilesystemIndex,
    entry: ApfsDirectoryEntry,
    contents: Seq<u8>,
    range: ByteRange,
    block_size: u32,
) -> bool {
    let inode = index.inodes@[entry.file_id];
    let data = extent_bytes(
        stream_extents(index, inode.private_id),
        inode.data_stream_size->0 as int,
        contents,
        range.offset as int,
        block_size as int,
    );
    is_symlink_entry(index, entry) ==> {
        &&& entry_path(index, entry) is Some
        &&& index.data_readable(entry, contents, range, block_size)
        &&& data.len() == inode.data_stream_size->0
        &&& utf8_decoding(data) is Some
    }
}

/// Reads a symbolic link's data: its extents' bytes one after another,
/// which must add up to the size its data-stream field records.
#[verifier::loop_isolation(false)]
fn read_symlink_target<D: BlockDevice>(
    index: &ApfsFilesystemIndex,
    entry: &ApfsDirectoryEntry,
    device: &D,
    container_range: ByteRange,
    block_size: u32,
) -> (r: RecoveryResult<Vec<u8>>)
    ensures
        !index.inodes@.contains_key(entry.file_id) ==> r is Err,
        index.inodes@.contains_key(entry.file_id) && index.inodes@[entry.file_id].data_stream_size is None ==> r is Err,
        r matches Ok(data) ==> {
            let inode = index.inodes@[entry.file_id];
            &&& data@ == extent_bytes(
                stream_extents(*index, inode.private_id),
                inode.data_stream_size->0 as int,
                device.contents(),
                container_range.offset as int,
                block_size as int,
            )
            &&& data@.len() == inode.data_stream_size->0
        },
        readable(device) && index.data_readable(*entry, device.contents(), container_range, block_size) && extent_bytes(
            stream_extents(*index, index.inodes@[entry.file_id].private_id),
            index.inodes@[entry.file_id].data_stream_size->0 as int,
            device.contents(),
            container_range.offset as int,
            block_size as int,
        ).len() == index.inodes@[entry.file_id].data_stream_size->0 ==> r is Ok,
{
    let inode = match index.inodes.get(&entry.file_id) {
        Some(v) => v,
        None => return Err(io_error("APFS symlink has no inode record")),
    };
    let size = match inode.data_stream_size {
        Some(v) => v,
        None => return Err(io_error("APFS symlink has no DSTREAM size")),
    };
    let empty: Vec<ApfsFileExtent> = Vec::new();
    let extents = match index.extents.get(&inode.private_id) {
        Some(v) => v,
        None => &empty,
    };
    if !pow2_u64(block_size as u64) {
        return Err(io_error("invalid APFS block size"));
    }
    if size > container_range.length {
        return Err(RecoveryError::OutOfRange { offset: 0, length: size, capacity: container_range.length });
    }
    let container_end = container_range.end()?;
    let capacity = device.capacity();
    let mut data: Vec<u8> = Vec::new();
    let mut prev: u64 = 0;
    let mut next: u64 = 0;
    let mut i: usize = 0;
    while i < extents.len()
        invariant
            i <= extents@.len(),
            next <= size,
            next <= prev,
            data@ == extent_bytes(extents@.take(i as int), size as int, device.contents(), container_range.offset as int, block_size as int),
            data@.len() <= next,
            container_end == container_range.spec_end(),
            capacity == device.contents().len(),
            prev == previous_end(extents@.take(i as int)),
            layout_fits(extents@.take(i as int), size as int, container_range.offset as int, container_end as int, block_size as int, capacity as int),
        decreases extents@.len() - i,
    {
        let e = extents[i];
        assert(extents@.take(i + 1).drop_last() == extents@.take(i as int));
        assert(extents@.take(i + 1).last() == e);
        proof {
            if layout_fits(extents@, size as int, container_range.offset as int, container_end as int, block_size as int, capacity as int) {
                lemma_fits_prefix(extents@, size as int, container_range.offset as int, container_end as int, block_size as int, capacity as int, i + 1);
            }
        }
        let (src, len) = check_extent(&e, prev, size, container_range.offset, container_end, block_size, capacity)?;
        if e.length != 0 {
            prev = e.logical_offset + e.length;
        }
        if e.length != 0 && len != 0 {
            if len > usize::MAX as u64 {
                return Err(RecoveryError::LengthTooLarge { length: len });
            }
            let chunk = if e.sparse {
                vec![0u8; len as usize]
            } else {
                crate::device::read_exact(device, src, len)?
            };
            let ghost before = data@;
            let mut k: usize = 0;
            while k < chunk.len()
                invariant
                    k <= chunk@.len(),
                    data@ == before + chunk@.take(k as int),
                decreases chunk@.len() - k,
            {
                data.push(chunk[k]);
                assert(chunk@.take(k + 1) == chunk@.take(k as int).push(chunk@[k as int]));
                k = k + 1;
            }
            assert(chunk@.take(chunk@.len() as int) == chunk@);
            next = e.logical_offset + len;
        }
        i = i + 1;
    }
    assert(extents@.take(extents@.len() as int) == extents@);
    if data.len() as u64 != size {
        return Err(io_error("APFS symlink data length mismatch"));
    }
    Ok(data)
}

/// Whether `link` was recovered from directory entry `entry`.
pub open spec fn recovered_link_from<D: BlockDevice>(
    link: ApfsRecoveredSymlink,
    index: ApfsFilesystemIndex,
    entry: ApfsDirectoryEntry,
    device: &D,
    container_range: ByteRange,
    block_size: u32,
) -> bool {
    let inode = index.inodes@[entry.file_id];
    &&& is_symlink_entry(index, entry)
    &&& entry_path(index, entry) == Some(link.path@)
    &&& utf8_decoding(
        extent_bytes(stream_extents(index, inode.private_id), inode.data_stream_size->0 as int, device.contents(), container_range.offset as int, block_size as int),
    ) == Some(link.target@)
    &&& link.xattrs@.len() == entry_xattrs(index, entry).len()
    &&& forall|i: int| 0 <= i < link.xattrs@.len() ==> recovered_xattr(#[trigger] link.xattrs@[i], entry_xattrs(index, entry)[i])
}

/// The symbolic-link entries among the first `n` directory entries of the
/// index, in directory-record order.
pub open spec fn symlink_entries(index: ApfsFilesystemIndex, n: int) -> Seq<ApfsDirectoryEntry>
    decreases n,
{
    if n <= 0 {
        Seq::empty()
    } else if is_symlink_entry(index, index.directories@[n - 1]) {
        symlink_entries(index, n - 1).push(index.directories@[n - 1])
    } else {
        symlink_entries(index, n - 1)
    }
}

/// Whether `links` are the links recovered from `entries`, one for one and
/// in order.
pub open spec fn links_of_entries<D: BlockDevice>(
    links: Seq<ApfsRecoveredSymlink>,
    entries: Seq<ApfsDirectoryEntry>,
    index: ApfsFilesystemIndex,
    device: &D,
    container_range: ByteRange,
    block_size: u32,
) -> bool {
    &&& links.len() == entries.len()
    &&& forall|k: int|
        0 <= k < links.len() ==> #[trigger] recovered_link_from(links[k], index, entries[k], device, container_range, block_size)
}

/// Whether `link` was recovered from some directory entry of the index.
pub open spec fn link_from_index<D: BlockDevice>(
    link: ApfsRecoveredSymlink,
    index: ApfsFilesystemIndex,
    device: &D,
    container_range: ByteRange,
    block_size: u32,
) -> bool {
    exists|j: int|
        0 <= j < index.directories@.len() && #[trigger] recovered_link_from(
            link,
            index,
            index.directories@[j],
            device,
            container_range,
            block_size,
        )
}

/// Recovers every symbolic link of an indexed filesystem. Links use the
/// same data streams as regular files but are returned apart, so a link
/// target is never taken for file content.
#[verifier::loop_isolation(false)]
pub fn recover_symlinks<D: BlockDevice>(
    index: &ApfsFilesystemIndex,
    device: &D,
    container_range: ByteRange,
    block_size: u32,
) -> (r: RecoveryResult<Vec<ApfsRecoveredSymlink>>)
    ensures
        (exists|j: int|
            0 <= j < index.directories@.len() && is_symlink_entry(*index, #[trigger] index.directories@[j])
                && entry_path(*index, index.directories@[j]) is None) ==> r is Err,
        r matches Ok(links) ==> forall|k: int|
            0 <= k < links@.len() ==> #[trigger] link_from_index(links@[k], *index, device, container_range, block_size),
        r matches Ok(links) ==> links_of_entries(
            links@,
            symlink_entries(*index, index.directories@.len() as int),
            *index,
            device,
            container_range,
            block_size,
        ),
        readable(device) && (forall|j: int|
            0 <= j < index.directories@.len() ==> #[trigger] link_recoverable(
                *index,
                index.directories@[j],
                device.contents(),
                container_range,
                block_size,
            )) ==> r is Ok,
{
    let mut links: Vec<ApfsRecoveredSymlink> = Vec::new();
    let mut i: usize = 0;
    while i < index.directories.len()
        invariant
            i <= index.directories@.len(),
            forall|j: int|
                0 <= j < i && is_symlink_entry(*index, #[trigger] index.directories@[j]) ==> entry_path(
                    *index,
                    index.directories@[j],
                ) is Some,
            forall|k: int|
                0 <= k < links@.len() ==> #[trigger] link_from_index(links@[k], *index, device, container_range, block_size),
            links_of_entries(links@, symlink_entries(*index, i as int), *index, device, container_range, block_size),
        decreases index.directories@.len() - i,
    {
        let entry = &index.directories[i];
        let ghost prior = symlink_entries(*index, i as int);
        assert(link_recoverable(*index, index.directories@[i as int], device.contents(), container_range, block_size)
            || !(forall|j: int|
            0 <= j < index.directories@.len() ==> #[trigger] link_recoverable(
                *index,
                index.directories@[j],
                device.contents(),
                container_range,
                block_size,
            )));
        let inode = match index.inodes.get(&entry.file_id) {
            Some(v) => v,
            None => {
                assert(symlink_entries(*index, i + 1) == prior);
                i = i + 1;
                continue;
            },
        };
        if !is_symlink_mode(inode.mode) {
            assert(symlink_entries(*index, i + 1) == prior);
            i = i + 1;
            continue;
        }
        let path = index.path_for_entry(entry)?;
        let target_bytes = read_symlink_target(index, entry, device, container_range, block_size)?;
        let target = match utf8_string(target_bytes.as_slice()) {
            Some(t) => t,
            None => return Err(io_error("APFS symlink target is not valid UTF-8")),
        };
        let xattrs = recover_xattrs(index, entry);
        let link = ApfsRecoveredSymlink { path, target, xattrs };
        assert(recovered_link_from(link, *index, index.directories@[i as int], device, container_range, block_size));
        let ghost before = links@;
        links.push(link);
        assert forall|k: int| 0 <= k < links@.len() implies #[trigger] link_from_index(
            links@[k],
            *index,
            device,
            container_range,
            block_size,
        ) by {
            if k < before.len() {
                assert(links@[k] == before[k]);
            } else {
                assert(recovered_link_from(links@[k], *index, index.directories@[i as int], device, container_range, block_size));
            }
        }
        assert(symlink_entries(*index, i + 1) == prior.push(index.directories@[i as int]));
        assert forall|k: int| 0 <= k < links@.len() implies #[trigger] recovered_link_from(
            links@[k],
            *index,
            symlink_entries(*index, i + 1)[k],
            device,
            container_range,
            block_size,
        ) by {
            if k < before.len() {
                assert(links@[k] == before[k]);
            }
        }
        i = i + 1;
    }
    Ok(links)
}

/// Whether `index` indexes records read from checksummed leaf nodes of a
/// catalog of `container`.
pub open spec fn catalog_index(contents: Seq<u8>, base: int, container: ApfsContainer, index: ApfsFilesystemIndex) -> bool {
    exists|records: Seq<ApfsCatalogRecord>|
        all_leaf_records(contents, base, container, records) && #[trigger] index_describes(index, records)
}

/// Whether every one of `files` is a regular file recovered from `index`.
pub open spec fn files_recovered<D: BlockDevice>(
    files: Seq<ApfsRecoveredFile>,
    index: ApfsFilesystemIndex,
    device: &D,
    range: ByteRange,
    block_size: u32,
) -> bool {
    forall|k: int| 0 <= k < files.len() ==> #[trigger] recovered_from_index(files[k], index, device, range, block_size)
}

/// Whether `file` is a regular file recovered from some checksummed catalog
/// of `container`.
pub open spec fn volume_file<D: BlockDevice>(device: &D, range: ByteRange, container: ApfsContainer, file: ApfsRecoveredFile) -> bool {
    exists|index: ApfsFilesystemIndex|
        catalog_index(device.contents(), range.offset as int, container, index) && #[trigger] recovered_from_index(
            file,
            index,
            device,
            range,
            container.block_size,
        )
}

/// Whether a volume's regular files can all be recovered: its catalog reads
/// through and indexes, and every index of a checksummed catalog of the
/// container has every regular file recoverable.
#[verifier::opaque]
pub open spec fn volume_recoverable(contents: Seq<u8>, range: ByteRange, c: ApfsContainer, volume: ApfsVolume, xid: u64) -> bool {
    &&& catalog_readable(contents, range, c, volume, xid)
    &&& forall|index: ApfsFilesystemIndex|
        #[trigger] catalog_index(contents, range.offset as int, c, index) ==> index_recoverable(
            index,
            contents,
            range,
            c.block_size,
        )
}

/// What a recoverable volume promises of its catalog and of each index of
/// it.
proof fn lemma_volume_recoverable(
    contents: Seq<u8>,
    range: ByteRange,
    c: ApfsContainer,
    volume: ApfsVolume,
    xid: u64,
    index: ApfsFilesystemIndex,
)
    requires
        volume_recoverable(contents, range, c, volume, xid),
    ensures
        catalog_readable(contents, range, c, volume, xid),
        catalog_index(contents, range.offset as int, c, index) ==> index_recoverable(index, contents, range, c.block_size),
{
    reveal(volume_recoverable);
}

/// Whether every live volume of the container in `range` can have its
/// regular files recovered: discovery reads through from any newest
/// superblock, and every volume it finds is recoverable.
#[verifier::opaque]
pub open spec fn container_recoverable(contents: Seq<u8>, range: ByteRange) -> bool {
    &&& latest_readable(contents, range)
    &&& forall|c: ApfsContainer, b: Seq<u8>|
        #[trigger] latest_superblock(contents, range, c, b) ==> discovery_ok(contents, range, c, b) && forall|k: int|
            0 <= k < advertised_oids(b, advertised_count(b)).len() && volume_found(
                contents,
                range,
                c,
                advertised_oids(b, advertised_count(b))[k],
                header_of(b).xid,
            ) ==> #[trigger] volume_recoverable(
                contents,
                range,
                c,
                found_volume(contents, range, c, advertised_oids(b, advertised_count(b))[k], header_of(b).xid),
                header_of(b).xid,
            )
}

/// Discovery reads through in a recoverable container.
proof fn lemma_container_discovery(contents: Seq<u8>, range: ByteRange)
    requires
        container_recoverable(contents, range),
    ensures
        latest_readable(contents, range),
        forall|c: ApfsContainer, b: Seq<u8>|
            #[trigger] latest_superblock(contents, range, c, b) ==> discovery_ok(contents, range, c, b),
{
    reveal(container_recoverable);
}

/// Every volume discovery finds in a recoverable container is recoverable.
proof fn lemma_discovered_recoverable(
    contents: Seq<u8>,
    range: ByteRange,
    c: ApfsContainer,
    vols: Seq<ApfsDiscoveredVolume>,
    i: int,
)
    requires
        container_recoverable(contents, range),
        discovered_volumes(contents, range, c, vols),
        0 <= i < vols.len(),
    ensures
        volume_recoverable(contents, range, c, vols[i].volume, vols[i].xid),
{
    reveal(container_recoverable);
    let b = choose|b: Seq<u8>| #[trigger] latest_superblock(contents, range, c, b) && discovered_from(contents, range, c, b, vols);
    reveal(discovered_from);
    let oids = advertised_oids(b, advertised_count(b));
    assert(oids.contains(vols[i].object_id));
    let k = choose|k: int| 0 <= k < oids.len() && oids[k] == vols[i].object_id;
    assert(volume_found(contents, range, c, oids[k], header_of(b).xid));
}

/// Whether `files` are exactly the regular files, in directory-record
/// order, of an index of a checksummed catalog of `container`.
pub open spec fn volume_files_exact<D: BlockDevice>(
    device: &D,
    range: ByteRange,
    container: ApfsContainer,
    files: Seq<ApfsRecoveredFile>,
) -> bool {
    exists|index: ApfsFilesystemIndex|
        catalog_index(device.contents(), range.offset as int, container, index) && #[trigger] all_regular_files(
            files,
            index,
            device,
            range,
            container.block_size,
        )
}

/// The files of the first `n` volumes, each paired with the object id of
/// the volume it came from, volume after volume.
pub open spec fn tagged_files(vols: Seq<ApfsDiscoveredVolume>, parts: Seq<Seq<ApfsRecoveredFile>>, n: int) -> Seq<
    (u64, ApfsRecoveredFile),
>
    decreases n,
{
    if n <= 0 {
        Seq::empty()
    } else {
        tagged_files(vols, parts, n - 1) + parts[n - 1].map_values(|f: ApfsRecoveredFile| (vols[n - 1].object_id, f))
    }
}

/// Whether `out` lists every regular file of every volume discovered in
/// the container in `range`, in volume order and, within a volume, in
/// directory-record order, each with its volume's object id.
pub open spec fn every_volume_file<D: BlockDevice>(out: Seq<(u64, ApfsRecoveredFile)>, device: &D, range: ByteRange) -> bool {
    exists|c: ApfsContainer, vols: Seq<ApfsDiscoveredVolume>, parts: Seq<Seq<ApfsRecoveredFile>>|
        #![trigger discovered_volumes(device.contents(), range, c, vols), tagged_files(vols, parts, vols.len() as int)]
        discovered_volumes(device.contents(), range, c, vols) && parts.len() == vols.len() && (forall|k: int|
            0 <= k < vols.len() ==> #[trigger] volume_files_exact(device, range, c, parts[k])) && out == tagged_files(
            vols,
            parts,
            vols.len() as int,
        )
}

/// Tagging depends only on the parts of the volumes it covers.
proof fn lemma_tagged_prefix(
    vols: Seq<ApfsDiscoveredVolume>,
    a: Seq<Seq<ApfsRecoveredFile>>,
    b: Seq<Seq<ApfsRecoveredFile>>,
    n: int,
)
    requires
        n <= a.len(),
        n <= b.len(),
        forall|j: int| 0 <= j < n ==> a[j] == b[j],
    ensures
        tagged_files(vols, a, n) == tagged_files(vols, b, n),
    decreases n,
{
    if n > 0 {
        lemma_tagged_prefix(vols, a, b, n - 1);
    }
}

/// Indexes one discovered volume's catalog and recovers its regular files,
/// reading its object map at the transaction it was discovered at, so a
/// volume superblock is never paired with another transaction's object map.
pub fn recover_discovered_volume_files<D: BlockDevice>(
    device: &D,
    range: ByteRange,
    container: &ApfsContainer,
    discovered: &ApfsDiscoveredVolume,
) -> (r: RecoveryResult<Vec<ApfsRecoveredFile>>)
    ensures
        discovered.volume.root_tree_oid == 0 || discovered.volume.omap_oid == 0 ==> r is Err,
        r matches Ok(files) ==> exists|index: ApfsFilesystemIndex|
            catalog_index(device.contents(), range.offset as int, *container, index) && #[trigger] files_recovered(
                files@,
                index,
                device,
                range,
                container.block_size,
            ),
        r matches Ok(files) ==> volume_files_exact(device, range, *container, files@),
        readable(device) && volume_recoverable(device.contents(), range, *container, discovered.volume, discovered.xid)
            ==> r is Ok,
{
    proof {
        if volume_recoverable(device.contents(), range, *container, discovered.volume, discovered.xid) {
            lemma_volume_recoverable(
                device.contents(),
                range,
                *container,
                discovered.volume,
                discovered.xid,
                arbitrary(),
            );
        }
    }
    let index = crate::apfs::filesystem::read_volume_filesystem_index(
        device,
        range,
        container,
        &discovered.volume,
        discovered.xid,
    )?;
    proof {
        if volume_recoverable(device.contents(), range, *container, discovered.volume, discovered.xid) {
            lemma_volume_recoverable(device.contents(), range, *container, discovered.volume, discovered.xid, index);
            assert(catalog_index(device.contents(), range.offset as int, *container, index));
        }
    }
    let files = recover_regular_files(&index, device, range, container.block_size)?;
    assert(catalog_index(device.contents(), range.offset as int, *container, index));
    assert(files_recovered(files@, index, device, range, container.block_size));
    assert(all_regular_files(files@, index, device, range, container.block_size));
    Ok(files)
}

/// Whether `f`, handed over with volume id `v`, is a regular file recovered
/// from a checksummed catalog of a container of the source, `v` not zero.
pub open spec fn discovered_volume_file<D: BlockDevice>(device: &D, range: ByteRange, v: u64, f: ApfsRecoveredFile) -> bool {
    v != 0 && exists|c: ApfsContainer| #[trigger] volume_file(device, range, c, f)
}

/// Takes recovered files, each with the object id of its volume, one at a
/// time.
pub trait VolumeFileSink {
    /// The files taken so far with their volume ids, in order.
    spec fn files(&self) -> Seq<(u64, ApfsRecoveredFile)>;

    /// Whether every file handed over is taken without error.
    spec fn takes_all(&self) -> bool;

    /// Takes one file of volume `volume`.
    fn take(&mut self, volume: u64, file: ApfsRecoveredFile) -> (r: RecoveryResult<()>)
        ensures
            final(self).files() == old(self).files().push((volume, file)),
            old(self).takes_all() ==> r is Ok && final(self).takes_all(),
    ;
}

/// A sink that keeps every volume file in memory.
pub struct VolumeFileLog {
    pub files: Vec<(u64, ApfsRecoveredFile)>,
}

impl VolumeFileLog {
    /// An empty log.
    pub fn new() -> (log: VolumeFileLog)
        ensures
            log.files() == Seq::<(u64, ApfsRecoveredFile)>::empty(),
            log.takes_all(),
    {
        VolumeFileLog { files: Vec::new() }
    }
}

impl VolumeFileSink for VolumeFileLog {
    open spec fn files(&self) -> Seq<(u64, ApfsRecoveredFile)> {
        self.files@
    }

    open spec fn takes_all(&self) -> bool {
        true
    }

    fn take(&mut self, volume: u64, file: ApfsRecoveredFile) -> (r: RecoveryResult<()>) {
        self.files.push((volume, file));
        Ok(())
    }
}

/// Recovers the regular files of every live volume found from the newest
/// valid checkpoint, handing them to `sink` one at a time as
/// `(volume_object_id, file)`, volume after volume and in directory-record
/// order within a volume.
#[verifier::spinoff_prover]
#[verifier::rlimit(60)]
pub fn for_each_discovered_volume_file<D: BlockDevice, S: VolumeFileSink>(device: &D, range: ByteRange, sink: &mut S) -> (r:
    RecoveryResult<()>)
    ensures
        r is Ok ==> exists|taken: Seq<(u64, ApfsRecoveredFile)>|
            #[trigger] recovered_volumes(taken, device, range) && final(sink).files() == old(sink).files() + taken,
        readable(device) && container_recoverable(device.contents(), range) && old(sink).takes_all() ==> (r is Ok
            && exists|taken: Seq<(u64, ApfsRecoveredFile)>|
            #[trigger] every_volume_file(taken, device, range) && final(sink).files() == old(sink).files() + taken),
{
    proof {
        if readable(device) && container_recoverable(device.contents(), range) {
            lemma_container_discovery(device.contents(), range);
        }
    }
    let (container, volumes) = discover_volumes(device, range)?;
    let ghost owed = readable(device) && container_recoverable(device.contents(), range);
    proof {
        if owed {
            lemma_container_discovery(device.contents(), range);
            assert(discovered_volumes(device.contents(), range, container, volumes@));
        }
    }
    let ghost start = sink.files();
    let ghost start_ok = sink.takes_all();
    let ghost mut out: Seq<(u64, ApfsRecoveredFile)> = Seq::empty();
    let ghost mut parts: Seq<Seq<ApfsRecoveredFile>> = Seq::empty();
    let mut k: usize = 0;
    while k < volumes.len()
        invariant
            k <= volumes@.len(),
            forall|i: int| 0 <= i < volumes@.len() ==> (#[trigger] volumes@[i]).object_id != 0,
            owed == (readable(device) && container_recoverable(device.contents(), range)),
            owed ==> discovered_volumes(device.contents(), range, container, volumes@),
            volume_files_from(out, device, range, container),
            parts.len() == k,
            forall|j: int| 0 <= j < k ==> #[trigger] volume_files_exact(device, range, container, parts[j]),
            out == tagged_files(volumes@, parts, k as int),
            sink.files() == start + out,
            start_ok == old(sink).takes_all(),
            start_ok ==> sink.takes_all(),
        decreases volumes@.len() - k,
    {
        proof {
            if owed {
                lemma_discovered_recoverable(device.contents(), range, container, volumes@, k as int);
            }
        }
        let mut files = recover_discovered_volume_files(device, range, &container, &volumes[k])?;
        let ghost all_files = files@;
        let ghost out0 = out;
        let object_id = volumes[k].object_id;
        assert(object_id != 0);
        let ghost index = choose|index: ApfsFilesystemIndex|
            catalog_index(device.contents(), range.offset as int, container, index) && #[trigger] files_recovered(
                files@,
                index,
                device,
                range,
                container.block_size,
            );
        while files.len() > 0
            invariant
                object_id != 0,
                catalog_index(device.contents(), range.offset as int, container, index),
                files_recovered(files@, index, device, range, container.block_size),
                volume_files_from(out, device, range, container),
                all_files.len() >= files@.len(),
                files@ == all_files.skip(all_files.len() - files@.len()),
                out == out0 + all_files.take(all_files.len() - files@.len()).map_values(
                    |f: ApfsRecoveredFile| (object_id, f),
                ),
                sink.files() == start + out,
                start_ok == old(sink).takes_all(),
                start_ok ==> sink.takes_all(),
            decreases files@.len(),
        {
            let ghost rest = files@;
            let file = files.remove(0);
            proof {
                assert(file == rest[0]);
                assert(recovered_from_index(file, index, device, range, container.block_size));
                assert(volume_file(device, range, container, file));
                assert forall|j: int| 0 <= j < files@.len() implies #[trigger] recovered_from_index(
                    files@[j],
                    index,
                    device,
                    range,
                    container.block_size,
                ) by {
                    assert(files@[j] == rest[j + 1]);
                }
            }
            let ghost m = all_files.len() - rest.len();
            proof {
                let o2 = out.push((object_id, file));
                assert forall|j: int| 0 <= j < o2.len() implies #[trigger] o2[j].0 != 0 && volume_file(device, range, container, o2[j].1) by {
                    if j < out.len() {
                        assert(o2[j] == out[j]);
                    }
                }
                assert(all_files[m] == file);
                assert(all_files.take(m + 1) == all_files.take(m).push(file));
                assert(all_files.take(m + 1).map_values(|f: ApfsRecoveredFile| (object_id, f)) =~= all_files.take(m).map_values(
                    |f: ApfsRecoveredFile| (object_id, f),
                ).push((object_id, file)));
                out = o2;
            }
            sink.take(object_id, file)?;
            proof {
                assert(files@ =~= all_files.skip(all_files.len() - files@.len()));
                assert(sink.files() =~= start + out);
            }
        }
        proof {
            assert(all_files.take(all_files.len() as int) == all_files);
            let p2 = parts.push(all_files);
            lemma_tagged_prefix(volumes@, parts, p2, k as int);
            assert(object_id == volumes@[k as int].object_id);
            assert(out =~= tagged_files(volumes@, p2, k + 1));
            assert forall|j: int| 0 <= j < k + 1 implies #[trigger] volume_files_exact(device, range, container, p2[j]) by {
                if j < k {
                    assert(p2[j] == parts[j]);
                }
            }
            parts = p2;
        }
        k = k + 1;
    }
    proof {
        assert(recovered_volumes(out, device, range));
        if owed {
            assert(every_volume_file(out, device, range));
        }
    }
    Ok(())
}

/// The chunks `ps`, each with the volume id `v` and the file metadata `h`.
pub open spec fn volume_tag_pieces(v: u64, h: HeaderView, ps: Seq<(u64, Seq<u8>)>) -> Seq<(u64, HeaderView, u64, Seq<u8>)> {
    ps.map_values(|p: (u64, Seq<u8>)| (v, h, p.0, p.1))
}

/// The file chunks `cs`, each with the volume id `v`.
pub open spec fn volume_tag_all(v: u64, cs: Seq<(HeaderView, u64, Seq<u8>)>) -> Seq<(u64, HeaderView, u64, Seq<u8>)> {
    cs.map_values(|c: (HeaderView, u64, Seq<u8>)| (v, c.0, c.1, c.2))
}

/// Tagging a concatenation with a volume and metadata tags each part.
pub proof fn lemma_volume_tag_concat(v: u64, h: HeaderView, a: Seq<(u64, Seq<u8>)>, b: Seq<(u64, Seq<u8>)>)
    ensures
        volume_tag_pieces(v, h, a + b) == volume_tag_pieces(v, h, a) + volume_tag_pieces(v, h, b),
        volume_tag_pieces(v, h, a) == volume_tag_all(v, tag_pieces(h, a)),
{
    assert(volume_tag_pieces(v, h, a + b) =~= volume_tag_pieces(v, h, a) + volume_tag_pieces(v, h, b));
    assert(volume_tag_pieces(v, h, a) =~= volume_tag_all(v, tag_pieces(h, a)));
}

/// Tagging a concatenation with a volume tags each part.
pub proof fn lemma_volume_all_concat(v: u64, a: Seq<(HeaderView, u64, Seq<u8>)>, b: Seq<(HeaderView, u64, Seq<u8>)>)
    ensures
        volume_tag_all(v, a + b) == volume_tag_all(v, a) + volume_tag_all(v, b),
{
    assert(volume_tag_all(v, a + b) =~= volume_tag_all(v, a) + volume_tag_all(v, b));
}

/// Takes the chunks of recovered files, each with its volume id and its
/// file's metadata.
pub trait VolumeChunkSink {
    /// The chunks taken so far, with their volume id, file metadata and
    /// logical offset, in order.
    spec fn chunks(&self) -> Seq<(u64, HeaderView, u64, Seq<u8>)>;

    /// Whether every chunk handed over is taken without error.
    spec fn takes_all(&self) -> bool;

    /// Takes the chunk of file `header` of volume `volume` that starts at
    /// logical offset `offset`.
    fn take(&mut self, volume: u64, header: &ApfsRecoveredFileHeader, offset: u64, chunk: &[u8]) -> (r: RecoveryResult<()>)
        ensures
            final(self).chunks() == old(self).chunks().push((volume, header_view(*header), offset, chunk@)),
            old(self).takes_all() ==> r is Ok && final(self).takes_all(),
    ;
}

/// A sink that keeps every volume file chunk in memory.
pub struct VolumeChunkLog {
    pub entries: Vec<(u64, ApfsRecoveredFileHeader, u64, Vec<u8>)>,
}

impl VolumeChunkLog {
    /// An empty log.
    pub fn new() -> (log: VolumeChunkLog)
        ensures
            log.chunks() == Seq::<(u64, HeaderView, u64, Seq<u8>)>::empty(),
            log.takes_all(),
    {
        let log = VolumeChunkLog { entries: Vec::new() };
        assert(log.chunks() =~= Seq::<(u64, HeaderView, u64, Seq<u8>)>::empty());
        log
    }
}

impl VolumeChunkSink for VolumeChunkLog {
    open spec fn chunks(&self) -> Seq<(u64, HeaderView, u64, Seq<u8>)> {
        self.entries@.map_values(|p: (u64, ApfsRecoveredFileHeader, u64, Vec<u8>)| (p.0, header_view(p.1), p.2, p.3@))
    }

    open spec fn takes_all(&self) -> bool {
        true
    }

    fn take(&mut self, volume: u64, header: &ApfsRecoveredFileHeader, offset: u64, chunk: &[u8]) -> (r: RecoveryResult<()>) {
        let copy = crate::bytes::copy_range(chunk, 0, chunk.len());
        assert(copy@ =~= chunk@);
        let h = copy_header(header);
        let ghost before = self.chunks();
        self.entries.push((volume, h, offset, copy));
        assert(self.chunks() =~= before.push((volume, header_view(*header), offset, chunk@)));
        Ok(())
    }
}

/// As `sink_zeros`, for a sink that also takes the volume id: hands `count` zero bytes from logical offset `start` to `sink`, in
/// chunks of at most `chunk_size` bytes.
fn volume_sink_zeros<S: VolumeChunkSink>(volume: u64, header: &ApfsRecoveredFileHeader, start: u64, count: u64, chunk_size: usize, sink: &mut S) -> (r:
    RecoveryResult<()>)
    requires
        chunk_size > 0,
        start + count <= u64::MAX,
    ensures
        r is Ok ==> final(sink).chunks() == old(sink).chunks() + volume_tag_pieces(volume, 
            header_view(*header),
            zero_pieces(start as int, count as int, chunk_size as int, 0),
        ),
        old(sink).takes_all() ==> r is Ok && final(sink).takes_all(),
{
    let ghost h = header_view(*header);
    let ghost first = sink.chunks();
    let ghost all = zero_pieces(start as int, count as int, chunk_size as int, 0);
    let mut done: u64 = 0;
    while done < count
        invariant
            chunk_size > 0,
            done <= count,
            start + count <= u64::MAX,
            h == header_view(*header),
            sink.chunks() + volume_tag_pieces(volume, h, zero_pieces(start as int, count as int, chunk_size as int, done as int))
                == first + volume_tag_pieces(volume, h, all),
            all == zero_pieces(start as int, count as int, chunk_size as int, 0),
            old(sink).takes_all() ==> sink.takes_all(),
        decreases count - done,
    {
        let left = count - done;
        let amount: u64 = if left < chunk_size as u64 {
            left
        } else {
            chunk_size as u64
        };
        let zeros = vec![0u8; amount as usize];
        let ghost piece = ((start + done) as u64, Seq::new(amount as nat, |i: int| 0u8));
        assert(zeros@ =~= piece.1);
        let ghost rest = zero_pieces(start as int, count as int, chunk_size as int, (done + amount) as int);
        assert(zero_pieces(start as int, count as int, chunk_size as int, done as int) == seq![piece] + rest);
        proof {
            lemma_volume_tag_concat(volume, h, seq![piece], rest);
        }
        let ghost before = sink.chunks();
        sink.take(volume, header, start + done, zeros.as_slice())?;
        assert(volume_tag_pieces(volume, h, seq![piece]) =~= seq![(volume, h, piece.0, piece.1)]);
        assert(sink.chunks() + volume_tag_pieces(volume, h, rest) =~= before + volume_tag_pieces(volume, h, seq![piece] + rest));
        done = done + amount;
    }
    assert(volume_tag_pieces(volume, h, zero_pieces(start as int, count as int, chunk_size as int, done as int)) =~= Seq::<
        (u64, HeaderView, u64, Seq<u8>),
    >::empty());
    assert(sink.chunks() =~= first + volume_tag_pieces(volume, h, all));
    Ok(())
}

/// As `sink_extent`, for a sink that also takes the volume id: hands the first `len` bytes of one checked extent to `sink` in chunks of
/// at most `chunk_size` bytes.
fn volume_sink_extent<D: BlockDevice, S: VolumeChunkSink>(
    volume: u64,
    device: &D,
    header: &ApfsRecoveredFileHeader,
    e: &ApfsFileExtent,
    src: u64,
    len: u64,
    chunk_size: usize,
    sink: &mut S,
) -> (r: RecoveryResult<()>)
    requires
        chunk_size > 0,
        len != 0 && !e.sparse ==> src + len <= u64::MAX && src + len <= device.contents().len(),
        len != 0 ==> e.logical_offset + len <= u64::MAX,
    ensures
        r is Ok ==> final(sink).chunks() == old(sink).chunks() + volume_tag_pieces(volume, 
            header_view(*header),
            extent_pieces(*e, src as int, device.contents(), chunk_size as int, 0, len as int),
        ),
        r is Ok && old(sink).takes_all() ==> final(sink).takes_all(),
        readable(device) && old(sink).takes_all() ==> r is Ok,
{
    let ghost h = header_view(*header);
    let ghost first = sink.chunks();
    let ghost contents = device.contents();
    let ghost all = extent_pieces(*e, src as int, contents, chunk_size as int, 0, len as int);
    let mut done: u64 = 0;
    while done < len
        invariant
            chunk_size > 0,
            done <= len,
            contents == device.contents(),
            h == header_view(*header),
            len != 0 && !e.sparse ==> src + len <= u64::MAX && src + len <= device.contents().len(),
            len != 0 ==> e.logical_offset + len <= u64::MAX,
            sink.chunks() + volume_tag_pieces(volume, h, extent_pieces(*e, src as int, contents, chunk_size as int, done as int, len as int))
                == first + volume_tag_pieces(volume, h, all),
            all == extent_pieces(*e, src as int, contents, chunk_size as int, 0, len as int),
            old(sink).takes_all() ==> sink.takes_all(),
        decreases len - done,
    {
        let remaining = len - done;
        let amount: u64 = if remaining < chunk_size as u64 {
            remaining
        } else {
            chunk_size as u64
        };
        let chunk = if e.sparse {
            vec![0u8; amount as usize]
        } else {
            crate::device::read_exact(device, src + done, amount)?
        };
        let ghost piece = (
            (e.logical_offset + done) as u64,
            crate::apfs::filesystem::extent_bytes(*e, src as int, contents, done as int, amount as int),
        );
        assert(chunk@ =~= piece.1);
        let ghost rest = extent_pieces(*e, src as int, contents, chunk_size as int, (done + amount) as int, len as int);
        assert(extent_pieces(*e, src as int, contents, chunk_size as int, done as int, len as int) == seq![piece] + rest);
        proof {
            lemma_volume_tag_concat(volume, h, seq![piece], rest);
        }
        let ghost before = sink.chunks();
        sink.take(volume, header, e.logical_offset + done, chunk.as_slice())?;
        assert(volume_tag_pieces(volume, h, seq![piece]) =~= seq![(volume, h, piece.0, piece.1)]);
        assert(sink.chunks() + volume_tag_pieces(volume, h, rest) =~= before + volume_tag_pieces(volume, h, seq![piece] + rest));
        done = done + amount;
    }
    assert(volume_tag_pieces(volume, h, extent_pieces(*e, src as int, contents, chunk_size as int, done as int, len as int)) =~= Seq::<
        (u64, HeaderView, u64, Seq<u8>),
    >::empty());
    assert(sink.chunks() =~= first + volume_tag_pieces(volume, h, all));
    Ok(())
}

/// As `sink_stream`, for a sink that also takes the volume id: streams one regular file to `sink`: each extent's bytes in logical
/// order, with the gaps between extents and the unmapped tail handed over
/// as zeros.
fn volume_sink_stream<D: BlockDevice, S: VolumeChunkSink>(
    volume: u64,
    device: &D,
    container_range: ByteRange,
    block_size: u32,
    extents: &[ApfsFileExtent],
    header: &ApfsRecoveredFileHeader,
    chunk_size: usize,
    sink: &mut S,
) -> (r: RecoveryResult<()>)
    requires
        chunk_size > 0,
    ensures
        r is Ok ==> final(sink).chunks() == old(sink).chunks() + volume_tag_pieces(volume, 
            header_view(*header),
            stream_pieces(
                extents@,
                header.size as int,
                device.contents(),
                container_range.offset as int,
                block_size as int,
                chunk_size as int,
            ),
        ),
        old(sink).takes_all() && readable(device) && is_pow2(block_size as int) && header.size <= container_range.length
            && container_range.spec_end() <= u64::MAX && layout_fits(
            extents@,
            header.size as int,
            container_range.offset as int,
            container_range.spec_end(),
            block_size as int,
            device.contents().len() as int,
        ) ==> r is Ok,
        r is Ok && old(sink).takes_all() ==> final(sink).takes_all(),
        !is_pow2(block_size as int) || header.size > container_range.length ==> r is Err,
{
    if !pow2_u64(block_size as u64) {
        return Err(io_error("invalid APFS block size"));
    }
    if header.size > container_range.length {
        return Err(RecoveryError::OutOfRange { offset: 0, length: header.size, capacity: container_range.length });
    }
    let container_end = container_range.end()?;
    let capacity = device.capacity();
    let ghost h = header_view(*header);
    let ghost first = sink.chunks();
    let ghost contents = device.contents();
    let ghost base = container_range.offset as int;
    let ghost size = header.size as int;
    let mut next: u64 = 0;
    let mut prev: u64 = 0;
    let mut i: usize = 0;
    while i < extents.len()
        invariant
            i <= extents@.len(),
            chunk_size > 0,
            next <= header.size,
            next <= prev,
            h == header_view(*header),
            contents == device.contents(),
            base == container_range.offset as int,
            size == header.size as int,
            container_end == container_range.spec_end(),
            capacity == device.contents().len(),
            prev == previous_end(extents@.take(i as int)),
            layout_fits(extents@.take(i as int), size, base, container_end as int, block_size as int, capacity as int),
            forall|j: int|
                0 <= j < i && (#[trigger] extents@[j]).length != 0 && clipped_length(extents@[j], size) > 0 ==> extents@[j].logical_offset
                    + clipped_length(extents@[j], size) <= next,
            stream_state(extents@, size, contents, base, block_size as int, chunk_size as int, i as int).1 == next,
            sink.chunks() == first + volume_tag_pieces(volume, 
                h,
                stream_state(extents@, size, contents, base, block_size as int, chunk_size as int, i as int).0,
            ),
            old(sink).takes_all() ==> sink.takes_all(),
        decreases extents@.len() - i,
    {
        let e = extents[i];
        assert(extents@.take(i + 1).drop_last() == extents@.take(i as int));
        assert(extents@.take(i + 1).last() == e);
        proof {
            if layout_fits(extents@, size, base, container_end as int, block_size as int, capacity as int) {
                lemma_fits_prefix(extents@, size, base, container_end as int, block_size as int, capacity as int, i + 1);
            }
        }
        let ghost st = stream_state(extents@, size, contents, base, block_size as int, chunk_size as int, i as int);
        let (src, len) = check_extent(&e, prev, header.size, container_range.offset, container_end, block_size, capacity)?;
        if e.length != 0 {
            prev = e.logical_offset + e.length;
        }
        if len != 0 {
            let ghost mid = sink.chunks();
            volume_sink_zeros(volume, header, next, e.logical_offset - next, chunk_size, sink)?;
            let ghost mid2 = sink.chunks();
            volume_sink_extent(volume, device, header, &e, src, len, chunk_size, sink)?;
            proof {
                let z = zero_pieces(next as int, e.logical_offset - next, chunk_size as int, 0);
                let x = extent_pieces(e, src as int, contents, chunk_size as int, 0, len as int);
                assert(extents@[i as int] == e);
                lemma_volume_tag_concat(volume, h, st.0, z);
                lemma_volume_tag_concat(volume, h, st.0 + z, x);
                assert(stream_state(extents@, size, contents, base, block_size as int, chunk_size as int, i + 1).0 == st.0 + z + x);
                assert(sink.chunks() =~= first + volume_tag_pieces(volume, h, st.0 + z + x));
            }
            next = e.logical_offset + len;
        } else {
            assert(extents@[i as int] == e);
        }
        i = i + 1;
    }
    assert(extents@.take(extents@.len() as int) == extents@);
    let ghost st = stream_state(extents@, size, contents, base, block_size as int, chunk_size as int, extents@.len() as int);
    volume_sink_zeros(volume, header, next, header.size - next, chunk_size, sink)?;
    proof {
        lemma_volume_tag_concat(volume, h, st.0, zero_pieces(next as int, size - next, chunk_size as int, 0));
    }
    Ok(())
}


/// Streams every regular file of `index`, a catalog index of volume
/// `volume`, to `sink` in bounded chunks, file after file in
/// directory-record order.
fn volume_index_chunks<D: BlockDevice, S: VolumeChunkSink>(
    volume: u64,
    index: &ApfsFilesystemIndex,
    device: &D,
    container_range: ByteRange,
    block_size: u32,
    chunk_size: usize,
    sink: &mut S,
) -> (r: RecoveryResult<()>)
    requires
        chunk_size > 0,
    ensures
        r is Ok ==> exists|taken: Seq<(HeaderView, u64, Seq<u8>)>|
            #[trigger] all_regular_chunks(taken, *index, device, container_range, block_size, chunk_size as int)
                && final(sink).chunks() == old(sink).chunks() + volume_tag_all(volume, taken),
        readable(device) && index_recoverable(*index, device.contents(), container_range, block_size)
            && old(sink).takes_all() ==> r is Ok,
        r is Ok && old(sink).takes_all() ==> final(sink).takes_all(),
{
    let ghost first = sink.chunks();
    let ghost mut heads: Seq<ApfsRecoveredFileHeader> = Seq::empty();
    let mut i: usize = 0;
    while i < index.directories.len()
        invariant
            i <= index.directories@.len(),
            chunk_size > 0,
            forall|j: int|
                0 <= j < i && is_regular_entry(*index, #[trigger] index.directories@[j]) ==> entry_path(
                    *index,
                    index.directories@[j],
                ) is Some,
            headers_of_entries(heads, regular_entries(*index, i as int), *index),
            sink.chunks() == first + volume_tag_all(
                volume,
                entries_chunks(
                    *index,
                    regular_entries(*index, i as int),
                    heads,
                    device,
                    container_range,
                    block_size,
                    chunk_size as int,
                    heads.len() as int,
                ),
            ),
            old(sink).takes_all() ==> sink.takes_all(),
        decreases index.directories@.len() - i,
    {
        let entry = &index.directories[i];
        let ghost prior = regular_entries(*index, i as int);
        assert(index_recoverable(*index, device.contents(), container_range, block_size) ==> entry_recoverable(
            *index,
            index.directories@[i as int],
            device.contents(),
            container_range,
            block_size,
        ));
        let header = match regular_file_metadata(index, entry)? {
            Some(h) => h,
            None => {
                assert(regular_entries(*index, i + 1) == prior);
                i = i + 1;
                continue;
            },
        };
        let inode = match index.inodes.get(&entry.file_id) {
            Some(v) => v,
            None => return Err(io_error("APFS regular file lost its inode")),
        };
        let empty: Vec<ApfsFileExtent> = Vec::new();
        let extents = match index.extents.get(&inode.private_id) {
            Some(v) => v,
            None => &empty,
        };
        assert(extents@ == stream_extents(*index, inode.private_id));
        let ghost before = sink.chunks();
        volume_sink_stream(volume, device, container_range, block_size, extents.as_slice(), &header, chunk_size, sink)?;
        proof {
            let e2 = prior.push(*entry);
            let h2 = heads.push(header);
            assert(index.directories@[i as int] == *entry);
            assert(regular_entries(*index, i + 1) == e2);
            lemma_entries_chunks_prefix(
                *index,
                prior,
                heads,
                e2,
                h2,
                device,
                container_range,
                block_size,
                chunk_size as int,
                heads.len() as int,
            );
            let old_chunks = entries_chunks(
                *index,
                prior,
                heads,
                device,
                container_range,
                block_size,
                chunk_size as int,
                heads.len() as int,
            );
            let s = stream_pieces(
                extents@,
                header.size as int,
                device.contents(),
                container_range.offset as int,
                block_size as int,
                chunk_size as int,
            );
            lemma_volume_tag_concat(volume, header_view(header), s, Seq::empty());
            lemma_volume_all_concat(volume, old_chunks, tag_pieces(header_view(header), s));
            assert forall|k: int| 0 <= k < h2.len() implies #[trigger] file_header_from(h2[k], *index, e2[k]) by {
                if k < heads.len() {
                    assert(h2[k] == heads[k] && e2[k] == prior[k]);
                }
            }
            heads = h2;
        }
        i = i + 1;
    }
    proof {
        let entries = regular_entries(*index, index.directories@.len() as int);
        let taken = entries_chunks(
            *index,
            entries,
            heads,
            device,
            container_range,
            block_size,
            chunk_size as int,
            entries.len() as int,
        );
        assert(headers_of_entries(heads, entries, *index));
        assert(all_regular_chunks(taken, *index, device, container_range, block_size, chunk_size as int));
    }
    Ok(())
}

/// Whether `chunks` are exactly the chunks of every regular file, in
/// directory-record order, of an index of a checksummed catalog of
/// `container`.
pub open spec fn volume_chunks_exact<D: BlockDevice>(
    device: &D,
    range: ByteRange,
    container: ApfsContainer,
    chunk_size: int,
    chunks: Seq<(HeaderView, u64, Seq<u8>)>,
) -> bool {
    exists|index: ApfsFilesystemIndex|
        catalog_index(device.contents(), range.offset as int, container, index) && #[trigger] all_regular_chunks(
            chunks,
            index,
            device,
            range,
            container.block_size,
            chunk_size,
        )
}

/// The chunks of the first `n` volumes, each with its volume's id, volume
/// after volume.
pub open spec fn tagged_chunks(ids: Seq<u64>, parts: Seq<Seq<(HeaderView, u64, Seq<u8>)>>, n: int) -> Seq<
    (u64, HeaderView, u64, Seq<u8>),
>
    decreases n,
{
    if n <= 0 {
        Seq::empty()
    } else {
        tagged_chunks(ids, parts, n - 1) + volume_tag_all(ids[n - 1], parts[n - 1])
    }
}

/// Tagging depends only on the volumes it covers.
proof fn lemma_tagged_chunks_prefix(
    i1: Seq<u64>,
    a: Seq<Seq<(HeaderView, u64, Seq<u8>)>>,
    i2: Seq<u64>,
    b: Seq<Seq<(HeaderView, u64, Seq<u8>)>>,
    n: int,
)
    requires
        n <= a.len(),
        n <= b.len(),
        n <= i1.len(),
        n <= i2.len(),
        forall|j: int| 0 <= j < n ==> a[j] == b[j] && i1[j] == i2[j],
    ensures
        tagged_chunks(i1, a, n) == tagged_chunks(i2, b, n),
    decreases n,
{
    if n > 0 {
        lemma_tagged_chunks_prefix(i1, a, i2, b, n - 1);
    }
}

/// The object ids of `vols`, in order.
pub open spec fn volume_ids(vols: Seq<ApfsDiscoveredVolume>) -> Seq<u64> {
    vols.map_values(|v: ApfsDiscoveredVolume| v.object_id)
}

/// Whether `out` is the chunks of the volumes with ids `ids` of `container`,
/// each volume's chunks exactly those of every regular file of a catalog of
/// it, volume after volume.
pub open spec fn volumes_chunked<D: BlockDevice>(
    device: &D,
    range: ByteRange,
    container: ApfsContainer,
    chunk_size: int,
    ids: Seq<u64>,
    parts: Seq<Seq<(HeaderView, u64, Seq<u8>)>>,
    out: Seq<(u64, HeaderView, u64, Seq<u8>)>,
) -> bool {
    &&& ids.len() == parts.len()
    &&& forall|k: int|
        0 <= k < ids.len() ==> ids[k] != 0 && #[trigger] volume_chunks_exact(device, range, container, chunk_size, parts[k])
    &&& out == tagged_chunks(ids, parts, ids.len() as int)
}

/// Whether `out` is the chunks of some non-zero volumes of a container of
/// the source, each volume's exactly those of every regular file of a
/// catalog of it.
pub open spec fn some_volume_chunks<D: BlockDevice>(out: Seq<(u64, HeaderView, u64, Seq<u8>)>, device: &D, range: ByteRange, chunk_size: int) -> bool {
    exists|c: ApfsContainer, ids: Seq<u64>, parts: Seq<Seq<(HeaderView, u64, Seq<u8>)>>|
        #[trigger] volumes_chunked(device, range, c, chunk_size, ids, parts, out)
}

/// Whether `out` is the chunks of every regular file of every volume
/// discovered in the container in `range`, volume after volume, each with
/// its volume's id.
pub open spec fn every_volume_chunk<D: BlockDevice>(out: Seq<(u64, HeaderView, u64, Seq<u8>)>, device: &D, range: ByteRange, chunk_size: int) -> bool {
    exists|c: ApfsContainer, vols: Seq<ApfsDiscoveredVolume>, parts: Seq<Seq<(HeaderView, u64, Seq<u8>)>>|
        #![trigger discovered_volumes(device.contents(), range, c, vols), volumes_chunked(device, range, c, chunk_size, volume_ids(vols), parts, out)]
        discovered_volumes(device.contents(), range, c, vols) && volumes_chunked(
            device,
            range,
            c,
            chunk_size,
            volume_ids(vols),
            parts,
            out,
        )
}

/// Streams regular-file data from every live volume: `sink` receives the
/// volume object id, the file's metadata, a logical offset and one bounded
/// chunk at a time, volume after volume and file after file. A zero chunk
/// size is refused.
#[verifier::spinoff_prover]
#[verifier::rlimit(60)]
pub fn for_each_discovered_volume_file_chunk<D: BlockDevice, S: VolumeChunkSink>(
    device: &D,
    range: ByteRange,
    chunk_size: usize,
    sink: &mut S,
) -> (r: RecoveryResult<()>)
    ensures
        chunk_size == 0 ==> r is Err,
        r is Ok ==> exists|taken: Seq<(u64, HeaderView, u64, Seq<u8>)>|
            #[trigger] some_volume_chunks(taken, device, range, chunk_size as int) && final(sink).chunks() == old(sink).chunks()
                + taken,
        chunk_size > 0 && readable(device) && container_recoverable(device.contents(), range) && old(sink).takes_all() ==> (r
            is Ok && exists|taken: Seq<(u64, HeaderView, u64, Seq<u8>)>|
            #[trigger] every_volume_chunk(taken, device, range, chunk_size as int) && final(sink).chunks() == old(
                sink,
            ).chunks() + taken),
{
    if chunk_size == 0 {
        return Err(io_error("invalid APFS container file chunk size"));
    }
    proof {
        if readable(device) && container_recoverable(device.contents(), range) {
            lemma_container_discovery(device.contents(), range);
        }
    }
    let (container, volumes) = discover_volumes(device, range)?;
    let ghost owed = readable(device) && container_recoverable(device.contents(), range);
    proof {
        if owed {
            lemma_container_discovery(device.contents(), range);
            assert(discovered_volumes(device.contents(), range, container, volumes@));
        }
    }
    let ghost first = sink.chunks();
    let ghost start_ok = sink.takes_all();
    let ghost mut parts: Seq<Seq<(HeaderView, u64, Seq<u8>)>> = Seq::empty();
    let mut k: usize = 0;
    while k < volumes.len()
        invariant
            k <= volumes@.len(),
            chunk_size > 0,
            forall|i: int| 0 <= i < volumes@.len() ==> (#[trigger] volumes@[i]).object_id != 0,
            owed == (readable(device) && container_recoverable(device.contents(), range)),
            owed ==> discovered_volumes(device.contents(), range, container, volumes@),
            parts.len() == k,
            forall|j: int| 0 <= j < k ==> #[trigger] volume_chunks_exact(device, range, container, chunk_size as int, parts[j]),
            sink.chunks() == first + tagged_chunks(volume_ids(volumes@), parts, k as int),
            start_ok == old(sink).takes_all(),
            start_ok ==> sink.takes_all(),
        decreases volumes@.len() - k,
    {
        let discovered = &volumes[k];
        assert(discovered.object_id != 0);
        proof {
            if owed {
                lemma_discovered_recoverable(device.contents(), range, container, volumes@, k as int);
                lemma_volume_recoverable(device.contents(), range, container, discovered.volume, discovered.xid, arbitrary());
            }
        }
        let index = crate::apfs::filesystem::read_volume_filesystem_index(
            device,
            range,
            &container,
            &discovered.volume,
            discovered.xid,
        )?;
        assert(catalog_index(device.contents(), range.offset as int, container, index));
        proof {
            if owed {
                lemma_volume_recoverable(device.contents(), range, container, discovered.volume, discovered.xid, index);
            }
        }
        let ghost before = sink.chunks();
        volume_index_chunks(discovered.object_id, &index, device, range, container.block_size, chunk_size, sink)?;
        proof {
            let taken = choose|taken: Seq<(HeaderView, u64, Seq<u8>)>|
                #[trigger] all_regular_chunks(taken, index, device, range, container.block_size, chunk_size as int)
                    && sink.chunks() == before + volume_tag_all(discovered.object_id, taken);
            assert(volume_chunks_exact(device, range, container, chunk_size as int, taken));
            let p2 = parts.push(taken);
            let ids = volume_ids(volumes@);
            assert(ids[k as int] == discovered.object_id);
            lemma_tagged_chunks_prefix(ids, parts, ids, p2, k as int);
            assert(sink.chunks() =~= first + tagged_chunks(ids, p2, k + 1));
            assert forall|j: int| 0 <= j < k + 1 implies #[trigger] volume_chunks_exact(
                device,
                range,
                container,
                chunk_size as int,
                p2[j],
            ) by {
                if j < k {
                    assert(p2[j] == parts[j]);
                }
            }
            parts = p2;
        }
        k = k + 1;
    }
    proof {
        let ids = volume_ids(volumes@);
        let taken = tagged_chunks(ids, parts, k as int);
        assert(volumes_chunked(device, range, container, chunk_size as int, ids, parts, taken));
        assert(some_volume_chunks(taken, device, range, chunk_size as int));
        if owed {
            assert(every_volume_chunk(taken, device, range, chunk_size as int));
        }
    }
    Ok(())
}

/// Whether every pair of `out` is a non-zero volume id and a regular file
/// recovered from a checksummed catalog of `container`.
pub open spec fn volume_files_from<D: BlockDevice>(
    out: Seq<(u64, ApfsRecoveredFile)>,
    device: &D,
    range: ByteRange,
    container: ApfsContainer,
) -> bool {
    forall|k: int| 0 <= k < out.len() ==> #[trigger] out[k].0 != 0 && volume_file(device, range, container, out[k].1)
}

/// Whether `out` pairs non-zero volume ids with regular files recovered
/// from checksummed catalogs of one container of the source.
pub open spec fn recovered_volumes<D: BlockDevice>(out: Seq<(u64, ApfsRecoveredFile)>, device: &D, range: ByteRange) -> bool {
    exists|c: ApfsContainer| #[trigger] volume_files_from(out, device, range, c)
}

/// Collects the regular files of every discovered volume with the volume
/// object id each came from. `for_each_discovered_volume_file` suits large
/// containers, since it never holds all recovered bytes at once.
#[verifier::spinoff_prover]
#[verifier::rlimit(60)]
pub fn recover_discovered_volumes<D: BlockDevice>(device: &D, range: ByteRange) -> (r: RecoveryResult<
    Vec<(u64, ApfsRecoveredFile)>,
>)
    ensures
        r matches Ok(out) ==> recovered_volumes(out@, device, range),
        readable(device) && container_recoverable(device.contents(), range) ==> (r matches Ok(out) && every_volume_file(
            out@,
            device,
            range,
        )),
{
    proof {
        if readable(device) && container_recoverable(device.contents(), range) {
            lemma_container_discovery(device.contents(), range);
        }
    }
    let (container, volumes) = discover_volumes(device, range)?;
    let ghost owed = readable(device) && container_recoverable(device.contents(), range);
    proof {
        if owed {
            lemma_container_discovery(device.contents(), range);
            assert(discovered_volumes(device.contents(), range, container, volumes@));
        }
    }
    let mut out: Vec<(u64, ApfsRecoveredFile)> = Vec::new();
    let ghost mut parts: Seq<Seq<ApfsRecoveredFile>> = Seq::empty();
    let mut k: usize = 0;
    while k < volumes.len()
        invariant
            k <= volumes@.len(),
            forall|i: int| 0 <= i < volumes@.len() ==> (#[trigger] volumes@[i]).object_id != 0,
            owed == (readable(device) && container_recoverable(device.contents(), range)),
            owed ==> discovered_volumes(device.contents(), range, container, volumes@),
            volume_files_from(out@, device, range, container),
            parts.len() == k,
            forall|j: int| 0 <= j < k ==> #[trigger] volume_files_exact(device, range, container, parts[j]),
            out@ == tagged_files(volumes@, parts, k as int),
        decreases volumes@.len() - k,
    {
        proof {
            if owed {
                lemma_discovered_recoverable(device.contents(), range, container, volumes@, k as int);
            }
        }
        let mut files = recover_discovered_volume_files(device, range, &container, &volumes[k])?;
        let ghost all_files = files@;
        let ghost out0 = out@;
        let object_id = volumes[k].object_id;
        assert(object_id != 0);
        let ghost index = choose|index: ApfsFilesystemIndex|
            catalog_index(device.contents(), range.offset as int, container, index) && #[trigger] files_recovered(
                files@,
                index,
                device,
                range,
                container.block_size,
            );
        while files.len() > 0
            invariant
                object_id != 0,
                catalog_index(device.contents(), range.offset as int, container, index),
                files_recovered(files@, index, device, range, container.block_size),
                volume_files_from(out@, device, range, container),
                all_files.len() >= files@.len(),
                files@ == all_files.skip(all_files.len() - files@.len()),
                out@ == out0 + all_files.take(all_files.len() - files@.len()).map_values(
                    |f: ApfsRecoveredFile| (object_id, f),
                ),
            decreases files@.len(),
        {
            let ghost rest = files@;
            let file = files.remove(0);
            proof {
                assert(file == rest[0]);
                assert(recovered_from_index(file, index, device, range, container.block_size));
                assert(volume_file(device, range, container, file));
                assert forall|j: int| 0 <= j < files@.len() implies #[trigger] recovered_from_index(
                    files@[j],
                    index,
                    device,
                    range,
                    container.block_size,
                ) by {
                    assert(files@[j] == rest[j + 1]);
                }
            }
            let ghost m = all_files.len() - rest.len();
            out.push((object_id, file));
            proof {
                assert(all_files[m] == file);
                assert(all_files.take(m + 1) == all_files.take(m).push(file));
                assert(all_files.take(m + 1).map_values(|f: ApfsRecoveredFile| (object_id, f)) =~= all_files.take(m).map_values(
                    |f: ApfsRecoveredFile| (object_id, f),
                ).push((object_id, file)));
                assert(files@ =~= all_files.skip(all_files.len() - files@.len()));
            }
        }
        proof {
            assert(all_files.take(all_files.len() as int) == all_files);
            let p2 = parts.push(all_files);
            assert(tagged_files(volumes@, p2, k as int) == tagged_files(volumes@, parts, k as int)) by {
                lemma_tagged_prefix(volumes@, parts, p2, k as int);
            }
            assert(object_id == volumes@[k as int].object_id);
            assert(out@ =~= tagged_files(volumes@, p2, k + 1));
            assert forall|j: int| 0 <= j < k + 1 implies #[trigger] volume_files_exact(device, range, container, p2[j]) by {
                if j < k {
                    assert(p2[j] == parts[j]);
                }
            }
            parts = p2;
        }
        k = k + 1;
    }
    assert(volume_files_from(out@, device, range, container));
    assert(recovered_volumes(out@, device, range));
    proof {
        if owed {
            assert(every_volume_file(out@, device, range));
        }
    }
    Ok(out)
}

} // verus!
