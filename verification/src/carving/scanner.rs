//! The bounded signature scanner.
//!
//! The source is read in fixed-size chunks so memory stays bounded regardless
//! of device size. Adjacent chunks overlap by the longest registered marker, so
//! a signature straddling a boundary is still found. Every offset and length is
//! checked: the bytes are untrusted.

use vstd::prelude::*;
use crate::candidate::{
    CancellationToken, CandidateId, Completeness, Confidence, Evidence, FileCandidate, Origin,
    Validation,
};
use crate::carving::registry::{max_lookbehind, max_lookbehind_prefix, BoundaryStrategy, CarveLimits, Signature};
use crate::device::{readable, BlockDevice};
use crate::range::{ByteRange, Extent, RecoveryError, RecoveryResult};
use crate::text::{decimal, push_decimal, push_str, string_of, zero_padded};

verus! {

/// Whether `needle` occurs in `haystack` at index `i`.
pub open spec fn occurs_at(haystack: Seq<u8>, needle: Seq<u8>, i: int) -> bool {
    0 <= i && i + needle.len() <= haystack.len() && haystack.subrange(i, i + needle.len()) == needle
}

/// Whether `needle` occurs at `i`, checked byte by byte.
fn matches_at(haystack: &[u8], needle: &[u8], i: usize) -> (r: bool)
    requires
        i + needle@.len() <= haystack@.len(),
    ensures
        r == occurs_at(haystack@, needle@, i as int),
{
    crate::bytes::bytes_match_at(haystack, i, needle)
}

/// Finds every occurrence of `needle` in `haystack`, in increasing order.
pub fn find_all(haystack: &[u8], needle: &[u8]) -> (hits: Vec<usize>)
    ensures
        needle@.len() == 0 ==> hits@.len() == 0,
        forall|k: int| 0 <= k < hits@.len() ==> occurs_at(haystack@, needle@, #[trigger] hits@[k] as int),
        forall|a: int, b: int| 0 <= a < b < hits@.len() ==> hits@[a] < hits@[b],
        needle@.len() > 0 ==> forall|i: int| occurs_at(haystack@, needle@, i) ==> #[trigger] hits@.contains(i as usize),
        hits@.len() <= haystack@.len(),
{
    let mut hits: Vec<usize> = Vec::new();
    if needle.len() == 0 || haystack.len() < needle.len() {
        return hits;
    }
    let mut index: usize = 0;
    let last = haystack.len() - needle.len();
    while index <= last
        invariant
            needle@.len() > 0,
            needle@.len() <= haystack@.len(),
            last == haystack@.len() - needle@.len(),
            last < usize::MAX,
            index <= last + 1,
            forall|k: int| 0 <= k < hits@.len() ==> occurs_at(haystack@, needle@, #[trigger] hits@[k] as int),
            forall|k: int| 0 <= k < hits@.len() ==> #[trigger] hits@[k] < index,
            forall|a: int, b: int| 0 <= a < b < hits@.len() ==> hits@[a] < hits@[b],
            forall|i: int| 0 <= i < index && occurs_at(haystack@, needle@, i) ==> #[trigger] hits@.contains(i as usize),
            hits@.len() <= index,
        decreases haystack@.len() - index,
    {
        if matches_at(haystack, needle, index) {
            let ghost before = hits@;
            hits.push(index);
            proof {
                assert forall|i: int| 0 <= i < index + 1 && occurs_at(haystack@, needle@, i) implies #[trigger] hits@.contains(i as usize) by {
                    if i < index {
                        assert(before.contains(i as usize));
                        let w = choose|w: int| 0 <= w < before.len() && before[w] == i as usize;
                        assert(hits@[w] == i as usize);
                    } else {
                        assert(hits@[hits@.len() - 1] == index);
                    }
                }
            }
        }
        index = index + 1;
    }
    proof {
        assert forall|i: int| occurs_at(haystack@, needle@, i) implies #[trigger] hits@.contains(i as usize) by {
            assert(i <= last);
        }
    }
    hits
}

/// Finds the first occurrence of `needle` at or after `from`.
pub fn find_from(haystack: &[u8], needle: &[u8], from: usize) -> (r: Option<usize>)
    ensures
        r matches Some(p) ==> from <= p && occurs_at(haystack@, needle@, p as int) && forall|q: int|
            from <= q < p ==> !occurs_at(haystack@, needle@, q),
        r is None ==> needle@.len() == 0 || from >= haystack@.len() || forall|q: int|
            from <= q ==> !occurs_at(haystack@, needle@, q),
{
    if needle.len() == 0 || from >= haystack.len() {
        return None;
    }
    if needle.len() > haystack.len() {
        return None;
    }
    let last = haystack.len() - needle.len();
    let mut p = from;
    while p <= last
        invariant
            from <= p,
            last == haystack@.len() - needle@.len(),
            last < usize::MAX,
            forall|q: int| from <= q < p ==> !occurs_at(haystack@, needle@, q),
        decreases last + 1 - p,
    {
        if matches_at(haystack, needle, p) {
            return Some(p);
        }
        p = p + 1;
    }
    None
}

/// Where a carve must stop: the end of the scanned range, or of the source
/// when that comes first.
pub open spec fn carve_limit(end: int, capacity: int) -> int {
    if end < capacity {
        end
    } else {
        capacity
    }
}

/// The furthest a carve from `start` may reach: the format's maximum, cut at
/// `limit`, where the scanned range ends.
pub open spec fn carve_ceiling(signature: Signature, limit: int, start: int) -> int {
    let available = if limit > start {
        limit - start
    } else {
        0
    };
    if signature.max_length < available {
        signature.max_length as int
    } else {
        available
    }
}

/// Bytes past the footer that belong to the file: PNG's IEND is followed by a
/// 4-byte CRC.
pub open spec fn footer_tail(signature: Signature) -> int {
    if signature.boundary == BoundaryStrategy::StructureWalk {
        4
    } else {
        0
    }
}

/// Whether a carve from `start` of `length` bytes, stopping at `limit`,
/// ends at a footer found at offset `q` from `start`.
pub open spec fn ends_at_footer(
    signature: Signature,
    contents: Seq<u8>,
    limit: int,
    start: int,
    length: int,
    q: int,
) -> bool {
    match signature.footer {
        Some(f) => {
            &&& occurs_at(contents, f@, start + q)
            &&& length == if q + f@.len() + footer_tail(signature) < carve_ceiling(signature, limit, start) {
                q + f@.len() + footer_tail(signature)
            } else {
                carve_ceiling(signature, limit, start)
            }
        },
        None => false,
    }
}

/// Whether the footer of `s` lies wholly inside the carve window from
/// `start`, stopping at `limit`, beginning `q` bytes in.
pub open spec fn footer_within(s: Signature, contents: Seq<u8>, limit: int, start: int, q: int) -> bool {
    match s.footer {
        Some(f) => 0 <= q && q + f@.len() <= carve_ceiling(s, limit, start) && occurs_at(contents, f@, start + q),
        None => false,
    }
}

/// Whether the footer at `q` is the first one wholly inside the window.
pub open spec fn first_footer(s: Signature, contents: Seq<u8>, limit: int, start: int, q: int) -> bool {
    &&& footer_within(s, contents, limit, start, q)
    &&& forall|q2: int| 0 <= q2 < q ==> !#[trigger] footer_within(s, contents, limit, start, q2)
}

/// Resolves where a candidate ends, reading forward from its header.
///
/// Returns the candidate length, and whether the end was positively identified.
/// A candidate whose end cannot be found is truncated at the format's maximum
/// and reported as unterminated, never silently extended. Nothing at or past
/// `end`, the end of the scanned range, is read or carved.
#[verifier::spinoff_prover]
#[verifier::rlimit(40)]
pub fn resolve_end<D: BlockDevice>(
    device: &D,
    signature: &Signature,
    start: u64,
    end: u64,
    limits: &CarveLimits,
    cancel: &CancellationToken,
) -> (r: RecoveryResult<(u64, bool)>)
    ensures
        cancel.spec_cancelled() && carve_ceiling(*signature, carve_limit(end as int, device.contents().len() as int), start as int) > 0
            && signature.footer is Some ==> r is Err,
        r matches Ok((length, terminated)) ==> {
            &&& length <= carve_ceiling(*signature, carve_limit(end as int, device.contents().len() as int), start as int)
            &&& !terminated ==> length == carve_ceiling(
                *signature,
                carve_limit(end as int, device.contents().len() as int),
                start as int,
            )
            &&& terminated ==> exists|q: int|
                0 <= q && #[trigger] ends_at_footer(
                    *signature,
                    device.contents(),
                    carve_limit(end as int, device.contents().len() as int),
                    start as int,
                    length as int,
                    q,
                )
        },
        readable(device) && !cancel.spec_cancelled() ==> r is Ok,
        signature.footer matches Some(f) ==> (readable(device) && 0 < f@.len() <= usize::MAX / 2 ==> (r matches Ok(
            (length, terminated),
        ) ==> (terminated <==> exists|q: int|
            #[trigger] footer_within(
                *signature,
                device.contents(),
                carve_limit(end as int, device.contents().len() as int),
                start as int,
                q,
            )) && (terminated ==> exists|q: int|
            #[trigger] first_footer(
                *signature,
                device.contents(),
                carve_limit(end as int, device.contents().len() as int),
                start as int,
                q,
            ) && ends_at_footer(
                *signature,
                device.contents(),
                carve_limit(end as int, device.contents().len() as int),
                start as int,
                length as int,
                q,
            )))),
{
    let capacity = device.capacity();
    let limit = if end < capacity {
        end
    } else {
        capacity
    };
    let available = if limit > start {
        limit - start
    } else {
        0
    };
    let ceiling = if signature.max_length < available {
        signature.max_length
    } else {
        available
    };
    if ceiling == 0 {
        return Ok((0, false));
    }
    let footer = match &signature.footer {
        Some(f) => f,
        None => {
            // No terminator to search for; take what the format allows.
            return Ok((ceiling, false));
        },
    };
    cancel.check()?;
    if footer.len() == 0 || footer.len() > usize::MAX / 2 {
        return Ok((ceiling, false));
    }
    // Walk forward in bounded windows rather than buffering the whole span.
    let window: usize = if limits.chunk_size > footer.len() * 2 {
        limits.chunk_size
    } else {
        footer.len() * 2
    };
    let mut searched: u64 = 0;
    let mut carry: Vec<u8> = Vec::new();
    let ghost contents = device.contents();
    while searched < ceiling
        invariant
            contents == device.contents(),
            capacity == contents.len(),
            limit == carve_limit(end as int, contents.len() as int),
            ceiling == carve_ceiling(*signature, limit as int, start as int),
            ceiling > 0,
            start + ceiling <= capacity,
            signature.footer == Some(*footer),
            footer@.len() > 0,
            window > 0,
            searched <= ceiling,
            carry@.len() <= searched,
            carry@ == contents.subrange(start + searched - carry@.len(), start + searched),
            !cancel.spec_cancelled(),
            carry@.len() == if searched < footer@.len() - 1 {
                searched as int
            } else {
                footer@.len() - 1
            },
            forall|q: int| 0 <= q && q + footer@.len() <= searched ==> !#[trigger] occurs_at(contents, footer@, start + q),
        decreases ceiling - searched,
    {
        cancel.check()?;
        let take = if ceiling - searched < window as u64 {
            ceiling - searched
        } else {
            window as u64
        };
        let range = ByteRange::new(start + searched, take)?;
        range.validate_within(capacity)?;
        let buffer = device.read(range)?;
        if buffer.len() == 0 {
            return Ok((ceiling, false));
        }
        let read = buffer.len();
        // Prepend the carry so a footer split across windows is still found.
        let carry_len = carry.len();
        let mut searchable = carry;
        let ghost base = start + searched - carry_len;
        let mut k: usize = 0;
        while k < buffer.len()
            invariant
                k <= buffer@.len(),
                searchable@ == contents.subrange(base, start + searched) + buffer@.take(k as int),
            decreases buffer@.len() - k,
        {
            searchable.push(buffer[k]);
            assert(buffer@.take(k + 1) == buffer@.take(k as int).push(buffer@[k as int]));
            k = k + 1;
        }
        proof {
            assert(buffer@.take(k as int) == buffer@);
            assert(searchable@ =~= contents.subrange(base, start + searched + read));
        }
        match find_from(searchable.as_slice(), footer.as_slice(), 0) {
            Some(position) => {
                let q = (searched - carry_len as u64) + position as u64;
                proof {
                    assert(occurs_at(contents, footer@, base + position)) by {
                        assert(searchable@.subrange(position as int, position + footer@.len()) =~= contents.subrange(base + position, base + position + footer@.len()));
                    }
                }
                assert(position + footer@.len() <= carry_len + read);
                assert(searched + read <= ceiling);
                let end_in_span = q + footer.len() as u64;
                let end_in_span = match signature.boundary {
                    BoundaryStrategy::StructureWalk => if ceiling - end_in_span > 4 {
                        end_in_span + 4
                    } else {
                        ceiling
                    },
                    _ => end_in_span,
                };
                let length = if end_in_span < ceiling {
                    end_in_span
                } else {
                    ceiling
                };
                proof {
                    let qq = q as int;
                    let fl = footer@.len() as int;
                    assert(occurs_at(contents, footer@, start + qq));
                    assert(footer_within(*signature, contents, limit as int, start as int, qq));
                    assert forall|q2: int| 0 <= q2 < qq implies !#[trigger] footer_within(
                        *signature,
                        contents,
                        limit as int,
                        start as int,
                        q2,
                    ) by {
                        if q2 + fl > searched {
                            let p2 = q2 - (searched - carry_len);
                            assert(0 <= p2 < position);
                            assert(!occurs_at(searchable@, footer@, p2));
                            assert(searchable@.subrange(p2, p2 + fl) =~= contents.subrange(start + q2, start + q2 + fl));
                        }
                    }
                    assert(first_footer(*signature, contents, limit as int, start as int, qq));
                    assert(ends_at_footer(*signature, device.contents(), limit as int, start as int, length as int, q as int));
                    assert(exists|w: int| 0 <= w && #[trigger] ends_at_footer(*signature, device.contents(), limit as int, start as int, length as int, w));
                    assert(length <= carve_ceiling(*signature, carve_limit(end as int, device.contents().len() as int), start as int));
                }
                return Ok((length, true));
            },
            None => {
                proof {
                    assert(searchable@.len() > 0);
                }
            },
        }
        let ghost old_searched = searched as int;
        searched = searched + read as u64;
        // Keep the last footer-length bytes to bridge the next window.
        let want = footer.len() - 1;
        let keep = if want < searchable.len() {
            want
        } else {
            searchable.len()
        };
        carry = crate::bytes::copy_range(searchable.as_slice(), searchable.len() - keep, searchable.len());
        proof {
            assert(carry@ =~= contents.subrange(start + searched - keep, start + searched));
            let fl = footer@.len() as int;
            assert forall|q: int| 0 <= q && q + fl <= searched implies !#[trigger] occurs_at(contents, footer@, start + q) by {
                if q + fl > old_searched {
                    let p2 = q - (old_searched - carry_len);
                    assert(0 <= p2);
                    assert(p2 + fl <= searchable@.len());
                    assert(!occurs_at(searchable@, footer@, p2));
                    assert(searchable@.subrange(p2, p2 + fl) =~= contents.subrange(start + q, start + q + fl));
                }
            }
        }
    }
    proof {
        let fl = footer@.len() as int;
        assert forall|q: int| !#[trigger] footer_within(*signature, contents, limit as int, start as int, q) by {
            if footer_within(*signature, contents, limit as int, start as int, q) {
                assert(occurs_at(contents, footer@, start + q));
            }
        }
    }
    // The footer was never found: report the bound rather than inventing an end.
    Ok((ceiling, false))
}

/// A detected signature before its boundary has been resolved.
#[derive(Clone, Copy, Debug, PartialEq, Eq)]
pub struct Detection {
    pub offset: u64,
    pub signature_index: usize,
}

/// Whether `r` is a carve of signature `s`: a header at a detected offset
/// inside the scanned `range`, a length within the format's bounds and the
/// range, and an end
/// that is either a located footer (complete) or the format's ceiling
/// (partial).
pub open spec fn carve_of(
    r: ByteRange,
    completeness: Completeness,
    contents: Seq<u8>,
    range: ByteRange,
    s: Signature,
) -> bool {
    &&& range.offset <= r.offset < range.spec_end()
    &&& occurs_at(contents, s.header@, r.offset as int)
    &&& s.min_length <= r.length <= carve_ceiling(s, range.spec_end(), r.offset as int)
    &&& r.spec_end() <= range.spec_end()
    &&& r.spec_end() <= contents.len()
    &&& completeness == Completeness::Complete ==> exists|q: int|
        0 <= q && #[trigger] ends_at_footer(s, contents, range.spec_end(), r.offset as int, r.length as int, q)
    &&& completeness == Completeness::Partial ==> r.length == carve_ceiling(s, range.spec_end(), r.offset as int)
    &&& completeness == Completeness::Complete || completeness == Completeness::Partial
}

/// Whether `c` is a candidate carved from `contents` within `range` by one of
/// `signatures`, named after its offset and the format's extension and
/// filed under `carved`.
pub open spec fn carved_from(
    c: FileCandidate,
    contents: Seq<u8>,
    range: ByteRange,
    signatures: Seq<Signature>,
) -> bool {
    &&& c.origin == Origin::Carved
    &&& c.extents@.len() == 1
    &&& c.extents@[0].logical_offset == 0
    &&& c.validation == Validation::NotAttempted
    &&& c.declared_size == c.extents@[0].source_range.length
    &&& c.spec_confidence() == Confidence::Low
    &&& c.path@.len() == 1 && c.path@[0]@ == "carved"@
    &&& exists|k: int|
        0 <= k < signatures.len() && #[trigger] carve_of(
            c.extents@[0].source_range,
            c.completeness,
            contents,
            range,
            signatures[k],
        ) && c.name@ == carved_name(c.extents@[0].source_range.offset, signatures[k].extension@)
}

/// The name of a carve at `offset`: `carved-`, the offset in ten or more
/// decimal digits, `.` and the format's extension.
pub open spec fn carved_name(offset: u64, extension: Seq<char>) -> Seq<char> {
    "carved-"@ + zero_padded(decimal(offset as nat), 10) + "."@ + extension
}

/// Whether the end of a carve `r` of `s` is the one a full read settles on:
/// for a format with a usable footer, a complete carve ends at the first
/// footer inside its window, and a partial one has none there.
pub open spec fn settled_end(r: ByteRange, completeness: Completeness, contents: Seq<u8>, range: ByteRange, s: Signature) -> bool {
    s.footer matches Some(f) ==> (0 < f@.len() <= usize::MAX / 2 ==> ((completeness == Completeness::Complete
        ==> exists|q: int|
        #[trigger] first_footer(s, contents, range.spec_end(), r.offset as int, q) && ends_at_footer(
            s,
            contents,
            range.spec_end(),
            r.offset as int,
            r.length as int,
            q,
        )) && (completeness == Completeness::Partial ==> forall|q: int|
        !#[trigger] footer_within(s, contents, range.spec_end(), r.offset as int, q))))
}

/// Whether `c` is a carve by one of `signatures` whose end is settled.
pub open spec fn carved_exactly(c: FileCandidate, contents: Seq<u8>, range: ByteRange, signatures: Seq<Signature>) -> bool {
    exists|k: int|
        0 <= k < signatures.len() && #[trigger] settled_end(
            c.extents@[0].source_range,
            c.completeness,
            contents,
            range,
            signatures[k],
        ) && carve_of(c.extents@[0].source_range, c.completeness, contents, range, signatures[k]) && c.name@
            == carved_name(c.extents@[0].source_range.offset, signatures[k].extension@)
}

/// Builds a candidate from a resolved carve.
pub fn build_candidate(
    signature: &Signature,
    source_range: ByteRange,
    terminated: bool,
    sequence: u64,
) -> (r: RecoveryResult<FileCandidate>)
    ensures
        r matches Ok(c) ==> {
            &&& c.origin == Origin::Carved
            &&& c.extents@ == seq![Extent { source_range, logical_offset: 0 }]
            &&& c.declared_size == source_range.length
            &&& c.completeness == if terminated {
                Completeness::Complete
            } else {
                Completeness::Partial
            }
            &&& c.validation == Validation::NotAttempted
            &&& c.path@.len() == 1 && c.path@[0]@ == "carved"@
            &&& c.name@ == carved_name(source_range.offset, signature.extension@)
            &&& c.spec_confidence() == Confidence::Low
        },
        r is Ok <==> source_range.spec_end() <= u64::MAX,
{
    let mut header_detail = signature.id.clone();
    push_str(&mut header_detail, " header signature found at offset ");
    push_decimal(&mut header_detail, source_range.offset, 0);
    let mut evidence: Vec<Evidence> = Vec::new();
    evidence.push(Evidence { supporting: true, detail: header_detail });
    if terminated {
        let mut detail = signature.id.clone();
        push_str(&mut detail, " terminator located, so the boundary is evidenced");
        evidence.push(Evidence { supporting: true, detail });
    } else {
        // Without a terminator the length is a bound, not a measurement.
        let mut detail = string_of("no ");
        push_str(&mut detail, signature.id.as_str());
        push_str(&mut detail, " terminator found within ");
        push_decimal(&mut detail, signature.max_length, 0);
        push_str(&mut detail, " bytes; the end is not established");
        evidence.push(Evidence { supporting: false, detail });
    }
    // Raw carving cannot see filesystem extents, so contiguity is assumed.
    evidence.push(
        Evidence::detracting(
            "carved contiguously; fragmentation cannot be excluded without filesystem extents",
        ),
    );
    let mut id = string_of("carved-");
    push_str(&mut id, signature.id.as_str());
    push_str(&mut id, "-");
    push_decimal(&mut id, sequence, 0);
    let mut name = string_of("carved-");
    push_decimal(&mut name, source_range.offset, 10);
    push_str(&mut name, ".");
    push_str(&mut name, signature.extension.as_str());
    let extent = Extent::new(source_range, 0)?;
    let mut extents: Vec<Extent> = Vec::new();
    extents.push(extent);
    let mut path: Vec<String> = Vec::new();
    path.push(string_of("carved"));
    let c = FileCandidate {
        id: CandidateId(id),
        name,
        path,
        origin: Origin::Carved,
        extents,
        declared_size: source_range.length,
        completeness: if terminated {
            Completeness::Complete
        } else {
            // An unterminated carve is explicitly partial.
            Completeness::Partial
        },
        validation: Validation::NotAttempted,
        evidence,
    };
    proof {
        assert(c.evidence@.drop_last().drop_last().drop_last() =~= Seq::<Evidence>::empty());
        assert(crate::candidate::detracting_count(c.evidence@) >= 1);
    }
    Ok(c)
}

/// Detection order: offset first, then higher priority first.
pub open spec fn detection_before(a: Detection, b: Detection, signatures: Seq<Signature>) -> bool {
    a.offset < b.offset || (a.offset == b.offset && signatures[a.signature_index as int].priority
        > signatures[b.signature_index as int].priority)
}

/// Whether no detection of `list` comes before an earlier one.
pub open spec fn detections_ordered(list: Seq<Detection>, signatures: Seq<Signature>) -> bool {
    forall|i: int, j: int| 0 <= i < j < list.len() ==> !detection_before(#[trigger] list[j], #[trigger] list[i], signatures)
}

/// Whether `d` is a detection in the chunk `buffer` read at `cursor`.
pub open spec fn detection_in(d: Detection, buffer: Seq<u8>, cursor: int, signatures: Seq<Signature>) -> bool {
    &&& d.signature_index < signatures.len()
    &&& cursor <= d.offset < cursor + buffer.len()
    &&& occurs_at(buffer, signatures[d.signature_index as int].header@, d.offset - cursor)
}

/// Inserts `d` after every detection that does not come after it, so equal
/// keys keep their arrival order.
fn insert_detection(list: &mut Vec<Detection>, d: Detection, signatures: &[Signature])
    requires
        d.signature_index < signatures@.len(),
        forall|k: int| 0 <= k < old(list)@.len() ==> #[trigger] old(list)@[k].signature_index < signatures@.len(),
        detections_ordered(old(list)@, signatures@),
    ensures
        final(list)@.len() == old(list)@.len() + 1,
        exists|p: int| 0 <= p <= old(list)@.len() && final(list)@ == old(list)@.insert(p, d),
        detections_ordered(final(list)@, signatures@),
{
    let mut p = list.len();
    while p > 0
        invariant
            p <= list@.len(),
            list@ == old(list)@,
            d.signature_index < signatures@.len(),
            forall|k: int| 0 <= k < list@.len() ==> #[trigger] list@[k].signature_index < signatures@.len(),
            forall|k: int| p <= k < list@.len() ==> detection_before(d, #[trigger] list@[k], signatures@),
        ensures
            p <= list@.len(),
            list@ == old(list)@,
            forall|k: int| p <= k < list@.len() ==> detection_before(d, #[trigger] list@[k], signatures@),
            p > 0 ==> !detection_before(d, list@[p - 1], signatures@),
        decreases p,
    {
        let prev = list[p - 1];
        let before = prev.offset < d.offset || (prev.offset == d.offset
            && signatures[prev.signature_index].priority >= signatures[d.signature_index].priority);
        if before {
            break;
        }
        p = p - 1;
    }
    let ghost before = list@;
    list.insert(p, d);
    proof {
        assert forall|i: int, j: int| 0 <= i < j < list@.len() implies !detection_before(
            #[trigger] list@[j],
            #[trigger] list@[i],
            signatures@,
        ) by {
            if j < p {
                assert(list@[i] == before[i] && list@[j] == before[j]);
            } else if j == p {
                assert(list@[i] == before[i]);
                if i < p - 1 {
                    assert(!detection_before(before[p - 1], before[i], signatures@));
                }
            } else if i == p {
                assert(list@[j] == before[j - 1]);
            } else if i < p {
                assert(list@[i] == before[i] && list@[j] == before[j - 1]);
            } else {
                assert(list@[i] == before[i - 1] && list@[j] == before[j - 1]);
            }
        }
    }
}

/// Whether `list` holds a detection of signature `i` at `offset`.
pub open spec fn has_detection(list: Seq<Detection>, offset: int, i: int) -> bool {
    list.contains(Detection { offset: offset as u64, signature_index: i as usize })
}

/// Inserting an element keeps every element already present.
proof fn lemma_insert_keeps(list: Seq<Detection>, p: int, d: Detection, x: Detection)
    requires
        0 <= p <= list.len(),
        list.contains(x),
    ensures
        list.insert(p, d).contains(x),
{
    let k = choose|k: int| 0 <= k < list.len() && list[k] == x;
    if k < p {
        assert(list.insert(p, d)[k] == x);
    } else {
        assert(list.insert(p, d)[k + 1] == x);
    }
}

/// Collects the detections of every signature's header in `buffer`, read at
/// `cursor`, in offset order with higher priority first.
pub fn collect_detections(buffer: &[u8], cursor: u64, signatures: &[Signature]) -> (r: Vec<Detection>)
    requires
        cursor + buffer@.len() <= u64::MAX,
    ensures
        forall|k: int| 0 <= k < r@.len() ==> detection_in(#[trigger] r@[k], buffer@, cursor as int, signatures@),
        forall|i: int, p: int|
            0 <= i < signatures@.len() && signatures@[i].header@.len() > 0 && #[trigger] occurs_at(
                buffer@,
                signatures@[i].header@,
                p,
            ) ==> has_detection(r@, cursor + p, i),
        r@.len() <= signatures@.len() * buffer@.len(),
        detections_ordered(r@, signatures@),
        r@.no_duplicates(),
{
    let mut detections: Vec<Detection> = Vec::new();
    let buffer_len = buffer.len();
    let mut i: usize = 0;
    while i < signatures.len()
        invariant
            i <= signatures@.len(),
            cursor + buffer@.len() <= u64::MAX,
            buffer_len == buffer@.len(),
            forall|k: int| 0 <= k < detections@.len() ==> detection_in(#[trigger] detections@[k], buffer@, cursor as int, signatures@),
            forall|ii: int, p: int|
                0 <= ii < i && signatures@[ii].header@.len() > 0 && #[trigger] occurs_at(buffer@, signatures@[ii].header@, p)
                    ==> has_detection(detections@, cursor + p, ii),
            detections@.len() <= i * buffer@.len(),
            detections_ordered(detections@, signatures@),
            detections@.no_duplicates(),
            forall|k: int| 0 <= k < detections@.len() ==> (#[trigger] detections@[k]).signature_index < i,
        decreases signatures@.len() - i,
    {
        let hits = find_all(buffer, signatures[i].header.as_slice());
        let ghost start_len = detections@.len();
        let mut h: usize = 0;
        while h < hits.len()
            invariant
                i < signatures@.len(),
                h <= hits@.len(),
                cursor + buffer@.len() <= u64::MAX,
                forall|k: int| 0 <= k < hits@.len() ==> occurs_at(buffer@, signatures@[i as int].header@, #[trigger] hits@[k] as int),
                hits@.len() > 0 ==> signatures@[i as int].header@.len() > 0,
                forall|k: int| 0 <= k < detections@.len() ==> detection_in(#[trigger] detections@[k], buffer@, cursor as int, signatures@),
                forall|ii: int, p: int|
                    0 <= ii < i && signatures@[ii].header@.len() > 0 && #[trigger] occurs_at(buffer@, signatures@[ii].header@, p)
                        ==> has_detection(detections@, cursor + p, ii),
                forall|k: int| 0 <= k < h ==> #[trigger] has_detection(detections@, cursor + hits@[k], i as int),
                signatures@[i as int].header@.len() > 0 ==> forall|q: int|
                    occurs_at(buffer@, signatures@[i as int].header@, q) ==> #[trigger] hits@.contains(q as usize),
                detections@.len() == start_len + h,
                start_len <= i * buffer@.len(),
                hits@.len() <= buffer@.len(),
                detections_ordered(detections@, signatures@),
                detections@.no_duplicates(),
                forall|a: int, b: int| 0 <= a < b < hits@.len() ==> hits@[a] < hits@[b],
                forall|k: int|
                    0 <= k < detections@.len() ==> (#[trigger] detections@[k]).signature_index < i || (
                    detections@[k].signature_index == i && exists|h2: int|
                        0 <= h2 < h && detections@[k].offset == cursor + hits@[h2]),
            decreases hits@.len() - h,
        {
            let hit = hits[h];
            assert(occurs_at(buffer@, signatures@[i as int].header@, hit as int));
            let d = Detection { offset: cursor + hit as u64, signature_index: i };
            let ghost old_list = detections@;
            assert(!old_list.contains(d)) by {
                if old_list.contains(d) {
                    let k = choose|k: int| 0 <= k < old_list.len() && old_list[k] == d;
                    assert(old_list[k].signature_index == i);
                    let h2 = choose|h2: int| 0 <= h2 < h && old_list[k].offset == cursor + hits@[h2];
                    assert(hits@[h2] < hits@[h as int]);
                }
            }
            insert_detection(&mut detections, d, signatures);
            proof {
                let p = choose|p: int| 0 <= p <= old_list.len() && detections@ == old_list.insert(p, d);
                assert forall|a: int, b: int| 0 <= a < b < detections@.len() implies detections@[a] != detections@[b] by {
                    if a < p && b < p {
                        assert(detections@[a] == old_list[a] && detections@[b] == old_list[b]);
                    } else if a < p && b == p {
                        assert(detections@[a] == old_list[a]);
                    } else if a < p {
                        assert(detections@[a] == old_list[a] && detections@[b] == old_list[b - 1]);
                    } else if a == p {
                        assert(detections@[b] == old_list[b - 1]);
                    } else {
                        assert(detections@[a] == old_list[a - 1] && detections@[b] == old_list[b - 1]);
                    }
                }
                assert forall|k: int| 0 <= k < detections@.len() implies (#[trigger] detections@[k]).signature_index < i || (
                    detections@[k].signature_index == i && exists|h2: int|
                        0 <= h2 < h + 1 && detections@[k].offset == cursor + hits@[h2]) by {
                    if k < p {
                        assert(detections@[k] == old_list[k]);
                    } else if k > p {
                        assert(detections@[k] == old_list[k - 1]);
                    } else {
                        assert(detections@[k] == d);
                    }
                }
                assert forall|k: int| 0 <= k < detections@.len() implies detection_in(#[trigger] detections@[k], buffer@, cursor as int, signatures@) by {
                    if k < p {
                        assert(detections@[k] == old_list[k]);
                    } else if k > p {
                        assert(detections@[k] == old_list[k - 1]);
                    }
                }
                assert forall|ii: int, q: int|
                    0 <= ii < i && signatures@[ii].header@.len() > 0 && #[trigger] occurs_at(buffer@, signatures@[ii].header@, q)
                        implies has_detection(detections@, cursor + q, ii) by {
                    lemma_insert_keeps(old_list, p, d, Detection { offset: (cursor + q) as u64, signature_index: ii as usize });
                }
                assert forall|k: int| 0 <= k < h + 1 implies #[trigger] has_detection(detections@, cursor + hits@[k], i as int) by {
                    if k < h {
                        assert(has_detection(old_list, cursor + hits@[k], i as int));
                        lemma_insert_keeps(old_list, p, d, Detection { offset: (cursor + hits@[k]) as u64, signature_index: i });
                    } else {
                        assert(detections@[p] == d);
                    }
                }
            }
            h = h + 1;
        }
        proof {
            assert forall|q: int|
                signatures@[i as int].header@.len() > 0 && #[trigger] occurs_at(buffer@, signatures@[i as int].header@, q)
                    implies has_detection(detections@, cursor + q, i as int) by {
                assert(0 <= q < buffer@.len());
                assert(hits@.contains(q as usize));
                let k = choose|k: int| 0 <= k < hits@.len() && hits@[k] == q as usize;
                assert(hits@[k] as int == q);
                assert(has_detection(detections@, cursor + hits@[k], i as int));
            }
        }
        assert(detections@.len() <= (i + 1) * buffer@.len()) by (nonlinear_arith)
            requires
                detections@.len() <= start_len + buffer@.len(),
                start_len <= i * buffer@.len(),
        ;
        i = i + 1;
    }
    assert(detections@.len() <= signatures@.len() * buffer@.len()) by (nonlinear_arith)
        requires
            detections@.len() <= i * buffer@.len(),
            i == signatures@.len(),
    ;
    detections
}

/// Whether `offset` falls in one of the claimed spans.
fn is_claimed(claimed: &Vec<(u64, u64)>, offset: u64) -> (r: bool)
    ensures
        r == exists|k: int| 0 <= k < claimed@.len() && #[trigger] claimed@[k].0 <= offset < claimed@[k].1,
{
    let mut k: usize = 0;
    while k < claimed.len()
        invariant
            k <= claimed@.len(),
            forall|j: int| 0 <= j < k ==> !(#[trigger] claimed@[j].0 <= offset < claimed@[j].1),
        decreases claimed@.len() - k,
    {
        let (s, e) = claimed[k];
        if offset >= s && offset < e {
            return true;
        }
        k = k + 1;
    }
    false
}

/// How many bytes a carve reads per chunk: the configured size, raised
/// past the longest marker so adjacent chunks can overlap by it.
pub open spec fn carve_chunk(limits: CarveLimits, signatures: Seq<Signature>) -> int {
    let overlap = max_lookbehind_prefix(signatures, signatures.len() as int);
    if overlap < usize::MAX && limits.chunk_size < overlap + 1 {
        (overlap + 1) as int
    } else if limits.chunk_size == 0 {
        1
    } else {
        limits.chunk_size as int
    }
}

/// Whether candidate `c` starts at `p` or covers it.
pub open spec fn covers_offset(c: FileCandidate, p: int) -> bool {
    let r = c.extents@[0].source_range;
    r.offset <= p && (p < r.spec_end() || p == r.offset)
}

/// Whether a carve of `s` from `p`, stopping at `limit`, may end after
/// `length` bytes: at the format's ceiling, or at a footer.
pub open spec fn carve_end(s: Signature, contents: Seq<u8>, limit: int, p: int, length: int) -> bool {
    ||| length == carve_ceiling(s, limit, p)
    ||| exists|q: int| 0 <= q && #[trigger] ends_at_footer(s, contents, limit, p, length, q)
}

/// Whether a header of `s` at `p` is accounted for by the candidates `out`:
/// one of them starts at or covers `p`, or the carve from `p` ends before
/// the format's minimum length.
pub open spec fn header_accounted(out: Seq<FileCandidate>, contents: Seq<u8>, range: ByteRange, s: Signature, p: int) -> bool {
    ||| exists|i: int| 0 <= i < out.len() && #[trigger] covers_offset(out[i], p)
    ||| exists|length: int| 0 <= length < s.min_length && #[trigger] carve_end(s, contents, range.spec_end(), p, length)
}

/// Whether every header of `signatures` lying wholly inside `range` and
/// starting before `lo` is accounted for by `out`.
#[verifier::opaque]
pub open spec fn accounted_below(
    out: Seq<FileCandidate>,
    contents: Seq<u8>,
    range: ByteRange,
    signatures: Seq<Signature>,
    lo: int,
) -> bool {
    forall|k: int, p: int|
        0 <= k < signatures.len() && signatures[k].header@.len() > 0 && range.offset <= p < lo && p
            + signatures[k].header@.len() <= range.spec_end() && #[trigger] occurs_at(contents, signatures[k].header@, p)
            ==> header_accounted(out, contents, range, signatures[k], p)
}

/// Whether the first `t` detections are accounted for by `out`.
#[verifier::opaque]
pub open spec fn dets_accounted(
    out: Seq<FileCandidate>,
    contents: Seq<u8>,
    range: ByteRange,
    signatures: Seq<Signature>,
    dets: Seq<Detection>,
    t: int,
) -> bool {
    forall|j: int|
        #![trigger dets[j]]
        0 <= j < t ==> header_accounted(out, contents, range, signatures[dets[j].signature_index as int], dets[j].offset as int)
}

/// Whether `dets` holds every header occurrence of `buffer`, read at `cursor`.
pub open spec fn chunk_detected(dets: Seq<Detection>, buffer: Seq<u8>, cursor: int, signatures: Seq<Signature>) -> bool {
    forall|i: int, p: int|
        0 <= i < signatures.len() && signatures[i].header@.len() > 0 && #[trigger] occurs_at(buffer, signatures[i].header@, p)
            ==> has_detection(dets, cursor + p, i)
}

/// A header accounted for stays accounted for when a candidate is added.
proof fn lemma_accounted_grow(out: Seq<FileCandidate>, c: FileCandidate, contents: Seq<u8>, range: ByteRange, s: Signature, p: int)
    requires
        header_accounted(out, contents, range, s, p),
    ensures
        header_accounted(out.push(c), contents, range, s, p),
{
    if exists|i: int| 0 <= i < out.len() && #[trigger] covers_offset(out[i], p) {
        let i = choose|i: int| 0 <= i < out.len() && #[trigger] covers_offset(out[i], p);
        assert(out.push(c)[i] == out[i]);
    }
}

/// Adding a candidate keeps everything accounted for.
proof fn lemma_all_grow(
    out: Seq<FileCandidate>,
    c: FileCandidate,
    contents: Seq<u8>,
    range: ByteRange,
    signatures: Seq<Signature>,
    lo: int,
    dets: Seq<Detection>,
    t: int,
)
    requires
        accounted_below(out, contents, range, signatures, lo),
        dets_accounted(out, contents, range, signatures, dets, t),
    ensures
        accounted_below(out.push(c), contents, range, signatures, lo),
        dets_accounted(out.push(c), contents, range, signatures, dets, t),
{
    reveal(accounted_below);
    reveal(dets_accounted);
    assert forall|k: int, p: int|
        0 <= k < signatures.len() && signatures[k].header@.len() > 0 && range.offset <= p < lo && p
            + signatures[k].header@.len() <= range.spec_end() && #[trigger] occurs_at(contents, signatures[k].header@, p)
        implies header_accounted(out.push(c), contents, range, signatures[k], p) by {
        lemma_accounted_grow(out, c, contents, range, signatures[k], p);
    }
    assert forall|j: int| #![trigger dets[j]] 0 <= j < t implies header_accounted(
        out.push(c),
        contents,
        range,
        signatures[dets[j].signature_index as int],
        dets[j].offset as int,
    ) by {
        lemma_accounted_grow(out, c, contents, range, signatures[dets[j].signature_index as int], dets[j].offset as int);
    }
}

/// One more detection accounted for.
proof fn lemma_dets_step(
    out: Seq<FileCandidate>,
    contents: Seq<u8>,
    range: ByteRange,
    signatures: Seq<Signature>,
    dets: Seq<Detection>,
    t: int,
)
    requires
        0 <= t < dets.len(),
        dets_accounted(out, contents, range, signatures, dets, t),
        header_accounted(out, contents, range, signatures[dets[t].signature_index as int], dets[t].offset as int),
    ensures
        dets_accounted(out, contents, range, signatures, dets, t + 1),
{
    reveal(dets_accounted);
}

/// Once every detection of a chunk is accounted for, so is every header
/// wholly inside the chunk, and so everything before the next chunk.
proof fn lemma_chunk_accounted(
    out: Seq<FileCandidate>,
    contents: Seq<u8>,
    range: ByteRange,
    signatures: Seq<Signature>,
    cursor: int,
    buffer: Seq<u8>,
    dets: Seq<Detection>,
    next: int,
    overlap: int,
)
    requires
        accounted_below(out, contents, range, signatures, cursor),
        dets_accounted(out, contents, range, signatures, dets, dets.len() as int),
        chunk_detected(dets, buffer, cursor, signatures),
        0 <= cursor,
        cursor + buffer.len() <= range.spec_end(),
        cursor + buffer.len() <= contents.len(),
        buffer == contents.subrange(cursor, cursor + buffer.len()),
        forall|k: int| 0 <= k < signatures.len() ==> #[trigger] signatures[k].header@.len() <= overlap,
        cursor <= next,
        next + overlap <= cursor + buffer.len() || cursor + buffer.len() == range.spec_end(),
        cursor + buffer.len() <= u64::MAX,
        signatures.len() <= usize::MAX,
    ensures
        accounted_below(out, contents, range, signatures, next),
{
    reveal(accounted_below);
    reveal(dets_accounted);
    assert forall|k: int, p: int|
        0 <= k < signatures.len() && signatures[k].header@.len() > 0 && range.offset <= p < next && p
            + signatures[k].header@.len() <= range.spec_end() && #[trigger] occurs_at(contents, signatures[k].header@, p)
        implies header_accounted(out, contents, range, signatures[k], p) by {
        if p >= cursor {
            let h = signatures[k].header@;
            let q = p - cursor;
            assert(p + h.len() <= cursor + buffer.len());
            assert(buffer.subrange(q, q + h.len()) =~= contents.subrange(p, p + h.len()));
            assert(occurs_at(buffer, h, q));
            assert(has_detection(dets, cursor + q, k));
            let d = Detection { offset: (cursor + q) as u64, signature_index: k as usize };
            let j = choose|j: int| 0 <= j < dets.len() && dets[j] == d;
            assert(dets[j] == d);
            assert(d.signature_index as int == k);
            assert(d.offset as int == p);
        }
    }
}

/// The bytes of the chunk a scan of `range` in chunks of `chunk` bytes
/// reads at `cursor`.
pub open spec fn chunk_window(contents: Seq<u8>, range: ByteRange, chunk: int, cursor: int) -> Seq<u8> {
    let end = if cursor + chunk < range.spec_end() {
        cursor + chunk
    } else {
        range.spec_end()
    };
    contents.subrange(cursor, end)
}

/// Whether `dets` are more distinct header detections than a chunk may
/// keep, all in the chunk a scan of `range` reads at `cursor`.
pub open spec fn overflowing_chunk(
    contents: Seq<u8>,
    range: ByteRange,
    signatures: Seq<Signature>,
    limits: CarveLimits,
    cursor: int,
    dets: Seq<Detection>,
) -> bool {
    &&& range.offset <= cursor < range.spec_end()
    &&& dets.no_duplicates()
    &&& dets.len() > limits.max_per_chunk
    &&& forall|k: int|
        0 <= k < dets.len() ==> #[trigger] detection_in(
            dets[k],
            chunk_window(contents, range, carve_chunk(limits, signatures), cursor),
            cursor,
            signatures,
        )
}

/// Whether some chunk of a scan of `range` holds more header detections
/// than a chunk may keep, so that some of them are passed over.
pub open spec fn chunk_overflows(contents: Seq<u8>, range: ByteRange, signatures: Seq<Signature>, limits: CarveLimits) -> bool {
    exists|cursor: int, dets: Seq<Detection>| #[trigger] overflowing_chunk(contents, range, signatures, limits, cursor, dets)
}

/// What a carve of `range` with `signatures` and `limits` that succeeds
/// returns: at most `max_candidates` candidates, each carved from a header in
/// the range, none starting inside an earlier one and none starting more
/// than the signatures' lookbehind before an earlier one (chunks overlap by
/// that much, so a header across a chunk boundary is found with the next
/// chunk); on a device that reads
/// fully, each carved exactly, and, unless the candidate cap was reached or
/// some chunk held more detections than it may keep, every header in the
/// range accounted for.
pub open spec fn carve_result<D: BlockDevice>(
    device: &D,
    range: ByteRange,
    signatures: Seq<Signature>,
    limits: CarveLimits,
    out: Seq<FileCandidate>,
) -> bool {
    &&& out.len() <= limits.max_candidates
    &&& forall|i: int| 0 <= i < out.len() ==> carved_from(#[trigger] out[i], device.contents(), range, signatures)
    &&& forall|i: int, j: int|
        #![trigger out[i], out[j]]
        0 <= i < j < out.len() ==> !(out[i].extents@[0].source_range.offset <= out[j].extents@[0].source_range.offset
            < out[i].extents@[0].source_range.spec_end())
    &&& forall|i: int, j: int|
        #![trigger out[i], out[j]]
        0 <= i < j < out.len() ==> out[i].extents@[0].source_range.offset <= out[j].extents@[0].source_range.offset
            + max_lookbehind_prefix(signatures, signatures.len() as int)
    &&& readable(device) ==> forall|i: int|
        0 <= i < out.len() ==> carved_exactly(#[trigger] out[i], device.contents(), range, signatures)
    &&& readable(device) && out.len() < limits.max_candidates && max_lookbehind_prefix(signatures, signatures.len() as int)
        < usize::MAX && !chunk_overflows(device.contents(), range, signatures, limits) ==> forall|k: int, p: int|
        0 <= k < signatures.len() && signatures[k].header@.len() > 0 && range.offset <= p && p + signatures[k].header@.len()
            <= range.spec_end() && #[trigger] occurs_at(device.contents(), signatures[k].header@, p) ==> header_accounted(
            out,
            device.contents(),
            range,
            signatures[k],
            p,
        )
}

/// Carves candidates from a bounded range of a source.
///
/// `range` bounds the scan; nothing outside it is read. Cancellation is checked
/// per chunk, so a long scan stays interruptible.
#[verifier::spinoff_prover]
#[verifier::rlimit(80)]
pub fn carve<D: BlockDevice>(
    device: &D,
    range: ByteRange,
    signatures: &[Signature],
    limits: &CarveLimits,
    cancel: &CancellationToken,
) -> (r: RecoveryResult<Vec<FileCandidate>>)
    ensures
        !range.within(device.contents().len() as int) ==> r is Err,
        cancel.spec_cancelled() && range.length > 0 ==> r is Err,
        r matches Ok(out) ==> carve_result(device, range, signatures@, *limits, out@),
        readable(device) && range.within(device.contents().len() as int) && !cancel.spec_cancelled() ==> r is Ok,
{
    range.validate_within(device.capacity())?;
    let overlap = max_lookbehind(signatures);
    let ghost mut hyp = readable(device) && max_lookbehind_prefix(signatures@, signatures@.len() as int) < usize::MAX;
    let chunk_size: usize = if overlap < usize::MAX && limits.chunk_size < overlap + 1 {
        overlap + 1
    } else if limits.chunk_size == 0 {
        1
    } else {
        limits.chunk_size
    };
    let ghost contents = device.contents();
    let mut candidates: Vec<FileCandidate> = Vec::new();
    let mut cursor = range.offset;
    let range_end = range.end()?;
    // Offsets already claimed by a candidate, so a signature embedded inside a
    // carved file does not produce a duplicate.
    let mut claimed: Vec<(u64, u64)> = Vec::new();
    let mut sequence: u64 = 0;
    if cursor < range_end {
        cancel.check()?;
    }
    let n_signatures = signatures.len();
    proof {
        reveal(accounted_below);
        assert(signatures@.len() == n_signatures);
        assert forall|k: int| 0 <= k < signatures@.len() implies #[trigger] signatures@[k].header@.len() <= overlap by {
            assert(signatures@[k].spec_lookbehind() <= overlap);
        }
    }
    while cursor < range_end
        invariant
            hyp ==> readable(device) && max_lookbehind_prefix(signatures@, signatures@.len() as int) < usize::MAX,
            readable(device) && max_lookbehind_prefix(signatures@, signatures@.len() as int) < usize::MAX ==> hyp
                || chunk_overflows(device.contents(), range, signatures@, *limits),
            overlap == max_lookbehind_prefix(signatures@, signatures@.len() as int),
            forall|k: int| 0 <= k < signatures@.len() ==> #[trigger] signatures@[k].header@.len() <= overlap,
            chunk_size == carve_chunk(*limits, signatures@),
            signatures@.len() <= usize::MAX,
            hyp && candidates@.len() < limits.max_candidates ==> accounted_below(candidates@, contents, range, signatures@, cursor as int),
            contents == device.contents(),
            range.within(contents.len() as int),
            range_end == range.spec_end(),
            range.offset <= cursor,
            chunk_size > 0,
            candidates@.len() <= limits.max_candidates,
            candidates@.len() == claimed@.len(),
            sequence == candidates@.len(),
            forall|i: int|
                0 <= i < candidates@.len() ==> carved_from(#[trigger] candidates@[i], contents, range, signatures@),
            readable(device) ==> forall|i: int|
                0 <= i < candidates@.len() ==> carved_exactly(#[trigger] candidates@[i], contents, range, signatures@),
            forall|i: int|
                0 <= i < claimed@.len() ==> #[trigger] claimed@[i] == (
                    candidates@[i].extents@[0].source_range.offset,
                    (candidates@[i].extents@[0].source_range.offset + candidates@[i].extents@[0].source_range.length) as u64,
                ),
            forall|i: int|
                0 <= i < candidates@.len() ==> #[trigger] candidates@[i].extents@[0].source_range.spec_end() <= u64::MAX,
            forall|i: int, j: int|
                #![trigger candidates@[i], candidates@[j]]
                0 <= i < j < candidates@.len() ==> !(candidates@[i].extents@[0].source_range.offset
                    <= candidates@[j].extents@[0].source_range.offset
                    < candidates@[i].extents@[0].source_range.spec_end()),
            forall|i: int, j: int|
                #![trigger candidates@[i], candidates@[j]]
                0 <= i < j < candidates@.len() ==> candidates@[i].extents@[0].source_range.offset
                    <= candidates@[j].extents@[0].source_range.offset + overlap,
            forall|i: int|
                0 <= i < candidates@.len() ==> #[trigger] candidates@[i].extents@[0].source_range.offset < cursor + overlap,
        decreases range_end - cursor,
    {
        cancel.check()?;
        if candidates.len() >= limits.max_candidates {
            return Ok(candidates);
        }
        let take = if range_end - cursor < chunk_size as u64 {
            range_end - cursor
        } else {
            chunk_size as u64
        };
        let chunk_range = ByteRange::new(cursor, take)?;
        chunk_range.validate_within(device.capacity())?;
        let buffer = device.read(chunk_range)?;
        if buffer.len() == 0 {
            return Ok(candidates);
        }
        let read = buffer.len();
        // Collect detections from this chunk, in offset order.
        let mut detections = collect_detections(buffer.as_slice(), cursor, signatures);
        let ghost all_dets = detections@;
        proof {
            if hyp && all_dets.len() > limits.max_per_chunk {
                assert(buffer@.len() == take);
                assert(buffer@ == contents.subrange(cursor as int, cursor + buffer@.len()));
                assert forall|k: int| 0 <= k < all_dets.len() implies #[trigger] detection_in(
                    all_dets[k],
                    chunk_window(contents, range, carve_chunk(*limits, signatures@), cursor as int),
                    cursor as int,
                    signatures@,
                ) by {
                    assert(detection_in(all_dets[k], buffer@, cursor as int, signatures@));
                }
                assert(overflowing_chunk(contents, range, signatures@, *limits, cursor as int, all_dets));
                hyp = false;
            }
        }
        detections.truncate(limits.max_per_chunk);
        proof {
            if hyp {
                assert(detections@ =~= all_dets);
            }
            reveal(dets_accounted);
            assert forall|i: int, j: int| 0 <= i < j < detections@.len() implies !detection_before(
                #[trigger] detections@[j],
                #[trigger] detections@[i],
                signatures@,
            ) by {
                assert(detections@[i] == all_dets[i] && detections@[j] == all_dets[j]);
            }
        }
        let ghost n0 = candidates@.len() as int;
        let ghost mut last: int = cursor as int;
        let mut t: usize = 0;
        let mut full = false;
        while t < detections.len() && !full
            invariant
                hyp ==> readable(device) && max_lookbehind_prefix(signatures@, signatures@.len() as int) < usize::MAX,
                readable(device) && max_lookbehind_prefix(signatures@, signatures@.len() as int) < usize::MAX ==> hyp
                    || chunk_overflows(device.contents(), range, signatures@, *limits),
                hyp ==> detections@ == all_dets,
                chunk_detected(all_dets, buffer@, cursor as int, signatures@),
                t <= detections@.len(),
                full ==> candidates@.len() >= limits.max_candidates,
                hyp && candidates@.len() < limits.max_candidates ==> accounted_below(candidates@, contents, range, signatures@, cursor as int)
                    && dets_accounted(candidates@, contents, range, signatures@, detections@, t as int),
                contents == device.contents(),
                range.within(contents.len() as int),
                range_end == range.spec_end(),
                range.offset <= cursor < range_end,
                buffer@ == contents.subrange(cursor as int, cursor + buffer@.len()),
                cursor + buffer@.len() <= range_end,
                forall|k: int| 0 <= k < detections@.len() ==> detection_in(#[trigger] detections@[k], buffer@, cursor as int, signatures@),
                candidates@.len() <= limits.max_candidates,
                candidates@.len() == claimed@.len(),
                sequence == candidates@.len(),
                forall|i: int|
                    0 <= i < candidates@.len() ==> carved_from(#[trigger] candidates@[i], contents, range, signatures@),
                readable(device) ==> forall|i: int|
                    0 <= i < candidates@.len() ==> carved_exactly(#[trigger] candidates@[i], contents, range, signatures@),
                forall|i: int|
                    0 <= i < claimed@.len() ==> #[trigger] claimed@[i] == (
                        candidates@[i].extents@[0].source_range.offset,
                        (candidates@[i].extents@[0].source_range.offset + candidates@[i].extents@[0].source_range.length) as u64,
                    ),
                forall|i: int|
                    0 <= i < candidates@.len() ==> #[trigger] candidates@[i].extents@[0].source_range.spec_end() <= u64::MAX,
                forall|i: int, j: int|
                    #![trigger candidates@[i], candidates@[j]]
                    0 <= i < j < candidates@.len() ==> !(candidates@[i].extents@[0].source_range.offset
                        <= candidates@[j].extents@[0].source_range.offset
                        < candidates@[i].extents@[0].source_range.spec_end()),
                forall|i: int, j: int|
                    #![trigger candidates@[i], candidates@[j]]
                    0 <= i < j < candidates@.len() ==> candidates@[i].extents@[0].source_range.offset
                        <= candidates@[j].extents@[0].source_range.offset + overlap,
                overlap == max_lookbehind_prefix(signatures@, signatures@.len() as int),
                detections_ordered(detections@, signatures@),
                0 <= n0 <= candidates@.len(),
                buffer@.len() > 0,
                forall|i: int|
                    0 <= i < n0 ==> #[trigger] candidates@[i].extents@[0].source_range.offset < cursor + overlap,
                forall|i: int|
                    n0 <= i < candidates@.len() ==> #[trigger] candidates@[i].extents@[0].source_range.offset <= last,
                t == 0 ==> last == cursor,
                t > 0 ==> last == detections@[t - 1].offset,
            decreases detections@.len() - t + if full { 0int } else { 1int },
        {
            cancel.check()?;
            if candidates.len() >= limits.max_candidates {
                full = true;
            } else {
                let detection = detections[t];
                let ghost t0 = t as int;
                let ghost cands0 = candidates@;
                let ghost claimed0 = claimed@;
                let ghost sig0 = signatures@[detection.signature_index as int];
                assert(detection_in(detections@[t0], buffer@, cursor as int, signatures@));
                proof {
                    if t0 > 0 {
                        assert(!detection_before(detections@[t0], detections@[t0 - 1], signatures@));
                    }
                    last = detection.offset as int;
                }
                t = t + 1;
                // A header inside an already-carved file is part of that file.
                let is_inside = is_claimed(&claimed, detection.offset);
                proof {
                    if is_inside {
                        let i = choose|i: int| 0 <= i < claimed0.len() && #[trigger] claimed0[i].0 <= detection.offset < claimed0[i].1;
                        assert(covers_offset(cands0[i], detection.offset as int));
                    }
                }
                if !is_inside {
                    let signature = &signatures[detection.signature_index];
                    let (length, terminated) = resolve_end(device, signature, detection.offset, range_end, limits, cancel)?;
                    proof {
                        assert(carve_limit(range_end as int, contents.len() as int) == range.spec_end());
                        assert(*signature == sig0);
                        if length < signature.min_length {
                            assert(carve_end(sig0, contents, range.spec_end(), detection.offset as int, length as int));
                        }
                    }
                    // Too short to be a real file: treat the match as a false positive.
                    if length >= signature.min_length {
                        let source_range = ByteRange::new(detection.offset, length)?;
                        let fits = source_range.validate_within(device.capacity()).is_ok();
                        proof {
                            if hyp && !fits {
                                assert(detection.offset < range_end);
                                assert(length <= range_end - detection.offset);
                                assert(false);
                            }
                        }
                        if fits {
                            let candidate = build_candidate(signature, source_range, terminated, sequence + 1)?;
                            proof {
                                let k = detection.signature_index as int;
                                let off = detection.offset - cursor;
                                assert(occurs_at(buffer@, signatures@[k].header@, off));
                                assert(occurs_at(contents, signatures@[k].header@, detection.offset as int)) by {
                                    assert(buffer@.subrange(off, off + signatures@[k].header@.len()) =~= contents.subrange(detection.offset as int, detection.offset + signatures@[k].header@.len()));
                                }
                                assert(*signature == signatures@[k]);
                                if terminated {
                                    let q = choose|q: int| 0 <= q && #[trigger] ends_at_footer(*signature, contents, range.spec_end(), detection.offset as int, length as int, q);
                                    assert(ends_at_footer(signatures@[k], contents, range.spec_end(), source_range.offset as int, source_range.length as int, q));
                                }
                                assert(candidate.extents@[0].source_range == source_range);
                                assert(carve_of(source_range, candidate.completeness, contents, range, signatures@[k]));
                                assert(carve_of(candidate.extents@[0].source_range, candidate.completeness, contents, range, signatures@[k]));
                                assert(carved_from(candidate, contents, range, signatures@));
                                if readable(device) {
                                    if signature.footer is Some {
                                        let f = signature.footer->0;
                                        if 0 < f@.len() <= usize::MAX / 2 {
                                            if terminated {
                                                let q = choose|q: int| #[trigger] first_footer(*signature, contents, range.spec_end(), detection.offset as int, q)
                                                    && ends_at_footer(*signature, contents, range.spec_end(), detection.offset as int, length as int, q);
                                                assert(first_footer(signatures@[k], contents, range.spec_end(), source_range.offset as int, q));
                                            }
                                        }
                                    }
                                    assert(settled_end(candidate.extents@[0].source_range, candidate.completeness, contents, range, signatures@[k]));
                                    assert(carved_exactly(candidate, contents, range, signatures@));
                                }
                            }
                            let ghost old_c = candidates@;
                            let ghost old_cl = claimed@;
                            claimed.push((detection.offset, detection.offset + length));
                            sequence = sequence + 1;
                            candidates.push(candidate);
                            proof {
                                assert forall|i: int| 0 <= i < candidates@.len() implies carved_from(#[trigger] candidates@[i], contents, range, signatures@) by {
                                    if i < old_c.len() {
                                        assert(candidates@[i] == old_c[i]);
                                    }
                                }
                                if readable(device) {
                                    assert forall|i: int| 0 <= i < candidates@.len() implies carved_exactly(#[trigger] candidates@[i], contents, range, signatures@) by {
                                        if i < old_c.len() {
                                            assert(candidates@[i] == old_c[i]);
                                        }
                                    }
                                }
                                assert forall|i: int| 0 <= i < claimed@.len() implies #[trigger] claimed@[i] == (
                                    candidates@[i].extents@[0].source_range.offset,
                                    (candidates@[i].extents@[0].source_range.offset + candidates@[i].extents@[0].source_range.length) as u64,
                                ) by {
                                    if i < old_c.len() {
                                        assert(candidates@[i] == old_c[i]);
                                        assert(claimed@[i] == old_cl[i]);
                                    }
                                }
                                assert forall|i: int, j: int|
                                    #![trigger candidates@[i], candidates@[j]]
                                    0 <= i < j < candidates@.len() implies !(candidates@[i].extents@[0].source_range.offset
                                        <= candidates@[j].extents@[0].source_range.offset
                                        < candidates@[i].extents@[0].source_range.spec_end()) by {
                                    if j < old_c.len() {
                                        assert(candidates@[i] == old_c[i] && candidates@[j] == old_c[j]);
                                    } else {
                                        assert(candidates@[i] == old_c[i]);
                                        assert(old_cl[i] == claimed@[i]);
                                        if old_cl[i].0 <= detection.offset < old_cl[i].1 {
                                            assert(false);
                                        }
                                    }
                                }
                                assert(covers_offset(candidates@[candidates@.len() - 1], detection.offset as int));
                                assert(candidates@[candidates@.len() - 1].extents@[0].source_range.offset == last);
                                assert forall|i: int, j: int|
                                    #![trigger candidates@[i], candidates@[j]]
                                    0 <= i < j < candidates@.len() implies candidates@[i].extents@[0].source_range.offset
                                        <= candidates@[j].extents@[0].source_range.offset + overlap by {
                                    assert(candidates@[i] == old_c[i]);
                                    if j < old_c.len() {
                                        assert(candidates@[j] == old_c[j]);
                                    } else if i < n0 {
                                        assert(old_c[i].extents@[0].source_range.offset < cursor + overlap);
                                    } else {
                                        assert(old_c[i].extents@[0].source_range.offset <= last);
                                    }
                                }
                                assert forall|i: int| 0 <= i < n0 implies #[trigger] candidates@[i].extents@[0].source_range.offset
                                    < cursor + overlap by {
                                    assert(candidates@[i] == old_c[i]);
                                }
                                assert forall|i: int| n0 <= i < candidates@.len() implies #[trigger] candidates@[i].extents@[0].source_range.offset
                                    <= last by {
                                    if i < old_c.len() {
                                        assert(candidates@[i] == old_c[i]);
                                    }
                                }
                            }
                        }
                    }
                }
                proof {
                    if hyp && candidates@.len() < limits.max_candidates {
                        if candidates@.len() > cands0.len() {
                            assert(candidates@ == cands0.push(candidates@.last()));
                            lemma_all_grow(cands0, candidates@.last(), contents, range, signatures@, cursor as int, detections@, t0);
                        }
                        assert(detections@[t0] == detection);
                        lemma_dets_step(candidates@, contents, range, signatures@, detections@, t0);
                    }
                }
            }
        }
        proof {
            if hyp && candidates@.len() < limits.max_candidates {
                assert(!full);
                assert(t == detections@.len());
            }
        }
        // Advance, overlapping so a signature spanning the boundary is caught.
        let advance: u64 = if (read as u64) > (overlap as u64) {
            read as u64 - overlap as u64
        } else {
            1
        };
        let ghost old_cursor = cursor as int;
        proof {
            if t > 0 {
                assert(detection_in(detections@[t - 1], buffer@, cursor as int, signatures@));
            }
            assert(last < old_cursor + read);
        }
        if advance > range_end - cursor {
            cursor = range_end;
        } else {
            cursor = cursor + advance;
        }
        proof {
            assert(old_cursor + read <= cursor + overlap);
            assert forall|i: int| 0 <= i < candidates@.len() implies #[trigger] candidates@[i].extents@[0].source_range.offset
                < cursor + overlap by {
                if i >= n0 {
                    assert(candidates@[i].extents@[0].source_range.offset <= last);
                }
            }
        }
        proof {
            if hyp && candidates@.len() < limits.max_candidates {
                assert(buffer@.len() == take);
                lemma_chunk_accounted(
                    candidates@,
                    contents,
                    range,
                    signatures@,
                    old_cursor,
                    buffer@,
                    detections@,
                    cursor as int,
                    overlap as int,
                );
            }
        }
        if cursor < range_end {
            cancel.check()?;
        }
    }
    proof {
        if hyp && candidates@.len() < limits.max_candidates {
            reveal(accounted_below);
        }
    }
    Ok(candidates)
}

} // verus!
