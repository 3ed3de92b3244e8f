//! Candidate normalisation and deduplication.
//!
//! Scans reach the same file by more than one route: a directory walk and a
//! carve may both find it, and two directory records may point at one stream.
//! Normalisation makes candidates comparable; deduplication keeps the
//! best-evidenced representative instead of reporting a file repeatedly.

use vstd::prelude::*;
use crate::candidate::{Confidence, FileCandidate, Origin};
use crate::range::{sum_lengths, Extent};
use crate::text::{chars_of, string_from_chars, string_of};
use crate::unicode::{is_whitespace, trim_ws_end, trim_ws_start, trimmed_end_len, trimmed_start_index};

verus! {

broadcast use vstd::seq_lib::group_to_multiset_ensures;

/// The character a name character is shown as: path separators and control
/// characters become `_`.
pub open spec fn name_char(c: char) -> char {
    if c == '/' || c == '\\' || (c as u32) < 0x20 || (0x7f <= (c as u32) && (c as u32) <= 0x9f) {
        '_'
    } else {
        c
    }
}

/// Whether every character of `s` is `.`.
pub open spec fn all_dots(s: Seq<char>) -> bool {
    forall|i: int| 0 <= i < s.len() ==> s[i] == '.'
}

/// The placeholder for a name with nothing usable in it.
pub open spec fn unnamed() -> Seq<char> {
    seq!['u', 'n', 'n', 'a', 'm', 'e', 'd']
}

/// A recovered name made safe to display and write.
pub open spec fn spec_normalize_name(name: Seq<char>) -> Seq<char> {
    let cleaned = name.map_values(|c: char| name_char(c));
    let trimmed = trim_ws_start(trim_ws_end(cleaned));
    if trimmed.len() == 0 || all_dots(trimmed) {
        unnamed()
    } else {
        trimmed
    }
}

/// Trims a recovered name to something safe to display and write.
///
/// Names come from untrusted metadata. Path separators and control characters
/// are replaced so a recovered file cannot escape its output directory, and
/// the result is never empty.
pub fn normalize_name(name: &str) -> (r: String)
    ensures
        r@ == spec_normalize_name(name@),
{
    let chars = chars_of(name);
    let mut cleaned: Vec<char> = Vec::new();
    let mut i: usize = 0;
    while i < chars.len()
        invariant
            i <= chars@.len(),
            chars@ == name@,
            cleaned@ == chars@.take(i as int).map_values(|c: char| name_char(c)),
        decreases chars@.len() - i,
    {
        let c = chars[i];
        let v = c as u32;
        let shown = if c == '/' || c == '\\' || v < 0x20 || (0x7f <= v && v <= 0x9f) {
            '_'
        } else {
            c
        };
        cleaned.push(shown);
        assert(chars@.take(i + 1).map_values(|c: char| name_char(c)) =~= chars@.take(i as int).map_values(
            |c: char| name_char(c),
        ).push(name_char(c)));
        i = i + 1;
    }
    assert(chars@.take(chars@.len() as int) == chars@);
    let end = trimmed_end_len(&cleaned);
    let start = trimmed_start_index(&cleaned, end);
    let trimmed = crate::bytes::copy_range(cleaned.as_slice(), start, end);
    assert(trim_ws_end(cleaned@) == cleaned@.take(end as int));
    assert(trimmed@ == trim_ws_start(cleaned@.take(end as int)));
    let mut dots = true;
    let mut k: usize = 0;
    while k < trimmed.len()
        invariant
            k <= trimmed@.len(),
            dots == (forall|j: int| 0 <= j < k ==> trimmed@[j] == '.'),
        decreases trimmed@.len() - k,
    {
        if trimmed[k] != '.' {
            dots = false;
        }
        k = k + 1;
    }
    if trimmed.len() == 0 || dots {
        let r = string_of("unnamed");
        proof {
            reveal_strlit("unnamed");
        }
        r
    } else {
        string_from_chars(&trimmed)
    }
}

/// Normalising a name twice changes nothing: the first pass leaves no
/// separator, control character or surrounding whitespace, and the
/// placeholder is itself a normal name.
pub proof fn lemma_normalize_name_idempotent(name: Seq<char>)
    ensures
        spec_normalize_name(spec_normalize_name(name)) == spec_normalize_name(name),
{
    let once = spec_normalize_name(name);
    let cleaned = name.map_values(|c: char| name_char(c));
    let trimmed = trim_ws_start(trim_ws_end(cleaned));
    lemma_trim_subrange(cleaned);
    assert(once.map_values(|c: char| name_char(c)) =~= once) by {
        assert forall|i: int| 0 <= i < once.len() implies name_char(once[i]) == once[i] by {
            if once != unnamed() {
                let (a, b) = choose|a: int, b: int| 0 <= a <= b <= cleaned.len() && trimmed == cleaned.subrange(a, b);
                assert(once[i] == cleaned[a + i]);
            }
        }
    }
    lemma_trim_fixed(once);
    if once == unnamed() {
        assert(!all_dots(unnamed())) by {
            assert(unnamed()[0] != '.');
        }
    }
}

/// Trimming keeps a contiguous part of the input.
pub proof fn lemma_trim_subrange(s: Seq<char>)
    ensures
        exists|a: int, b: int|
            0 <= a <= b <= s.len() && #[trigger] trim_ws_start(trim_ws_end(s)) == s.subrange(a, b),
        trim_ws_start(trim_ws_end(s)).len() > 0 ==> !is_whitespace(trim_ws_start(trim_ws_end(s))[0])
            && !is_whitespace(trim_ws_start(trim_ws_end(s)).last()),
{
    let (b, e) = lemma_trim_end_prefix(s);
    let t = trim_ws_end(s);
    let a = lemma_trim_start_suffix(t);
    assert(trim_ws_start(t) == s.subrange(a, b));
    if trim_ws_start(t).len() > 0 {
        assert(trim_ws_start(t).last() == t.last());
    }
}

/// Trimming the end keeps a prefix whose last character is not whitespace.
pub proof fn lemma_trim_end_prefix(s: Seq<char>) -> (r: (int, bool))
    ensures
        0 <= r.0 <= s.len(),
        trim_ws_end(s) == s.take(r.0),
        r.0 > 0 ==> !is_whitespace(s[r.0 - 1]),
    decreases s.len(),
{
    if s.len() > 0 && is_whitespace(s.last()) {
        let r = lemma_trim_end_prefix(s.drop_last());
        assert(s.drop_last().take(r.0) == s.take(r.0));
        r
    } else {
        assert(s.take(s.len() as int) == s);
        (s.len() as int, true)
    }
}

/// Trimming the start keeps a suffix whose first character is not
/// whitespace.
pub proof fn lemma_trim_start_suffix(s: Seq<char>) -> (a: int)
    ensures
        0 <= a <= s.len(),
        trim_ws_start(s) == s.subrange(a, s.len() as int),
        a < s.len() ==> !is_whitespace(s[a]),
    decreases s.len(),
{
    if s.len() > 0 && is_whitespace(s[0]) {
        let a = lemma_trim_start_suffix(s.drop_first());
        assert(s.drop_first().subrange(a, s.drop_first().len() as int) == s.subrange(a + 1, s.len() as int));
        a + 1
    } else {
        assert(s.subrange(0, s.len() as int) == s);
        0
    }
}

/// A sequence with no whitespace at either end is its own trimmed form.
pub proof fn lemma_trim_fixed(s: Seq<char>)
    requires
        s.len() > 0 ==> !is_whitespace(s[0]) && !is_whitespace(s.last()),
    ensures
        trim_ws_start(trim_ws_end(s)) == s,
{
}

/// Whether a path component is a traversal entry, `.` or `..`.
pub open spec fn is_dot_entry(c: Seq<char>) -> bool {
    c == seq!['.'] || c == seq!['.', '.']
}

/// A candidate's path with traversal entries dropped and every other
/// component normalised.
pub open spec fn normalized_path(path: Seq<Seq<char>>) -> Seq<Seq<char>>
    decreases path.len(),
{
    if path.len() == 0 {
        Seq::empty()
    } else {
        let prev = normalized_path(path.drop_last());
        if is_dot_entry(path.last()) {
            prev
        } else {
            prev.push(spec_normalize_name(path.last()))
        }
    }
}

/// A normalised name is never a traversal entry.
pub proof fn lemma_normalized_name_not_dot(name: Seq<char>)
    ensures
        !is_dot_entry(spec_normalize_name(name)),
{
    let n = spec_normalize_name(name);
    if n == seq!['.'] {
        assert(n[0] == '.');
        if n == unnamed() {
            assert(unnamed()[0] != '.');
        }
        assert(all_dots(n));
    }
    if n == seq!['.', '.'] {
        assert(n[0] == '.' && n[1] == '.');
        if n == unnamed() {
            assert(unnamed().len() == 7);
        }
        assert(all_dots(n));
    }
}

/// Normalising a path twice changes nothing: the first pass leaves no
/// traversal entry and only normalised names.
pub proof fn lemma_normalized_path_idempotent(path: Seq<Seq<char>>)
    ensures
        normalized_path(normalized_path(path)) == normalized_path(path),
    decreases path.len(),
{
    if path.len() > 0 {
        lemma_normalized_path_idempotent(path.drop_last());
        if !is_dot_entry(path.last()) {
            let prev = normalized_path(path.drop_last());
            let n = spec_normalize_name(path.last());
            lemma_normalized_name_not_dot(path.last());
            lemma_normalize_name_idempotent(path.last());
            assert(prev.push(n).drop_last() == prev);
            assert(prev.push(n).last() == n);
        }
    }
}

/// The text of each string.
pub open spec fn texts(v: Seq<String>) -> Seq<Seq<char>> {
    v.map_values(|s: String| s@)
}

/// Whether `s` is `.` or `..`.
fn is_dot_component(s: &String) -> (r: bool)
    ensures
        r == is_dot_entry(s@),
{
    let c = chars_of(s.as_str());
    if c.len() == 1 && c[0] == '.' {
        assert(c@ =~= seq!['.']);
        return true;
    }
    if c.len() == 2 && c[0] == '.' && c[1] == '.' {
        assert(c@ =~= seq!['.', '.']);
        return true;
    }
    proof {
        if c@ == seq!['.'] {
            assert(c@[0] == '.');
        }
        if c@ == seq!['.', '.'] {
            assert(c@[0] == '.' && c@[1] == '.');
        }
    }
    false
}

/// Normalises a candidate in place: its name, and each path component,
/// with `.` and `..` components dropped first so they never become
/// placeholder directory names.
pub fn normalize(candidate: &mut FileCandidate)
    ensures
        final(candidate).name@ == spec_normalize_name(old(candidate).name@),
        texts(final(candidate).path@) == normalized_path(texts(old(candidate).path@)),
        final(candidate).origin == old(candidate).origin,
        final(candidate).extents@ == old(candidate).extents@,
        final(candidate).declared_size == old(candidate).declared_size,
        final(candidate).completeness == old(candidate).completeness,
        final(candidate).validation == old(candidate).validation,
        final(candidate).evidence@ == old(candidate).evidence@,
        final(candidate).id == old(candidate).id,
{
    let name = normalize_name(candidate.name.as_str());
    candidate.name = name;
    let mut path: Vec<String> = Vec::new();
    let mut i: usize = 0;
    while i < candidate.path.len()
        invariant
            i <= candidate.path@.len(),
            candidate.path@ == old(candidate).path@,
            texts(path@) == normalized_path(texts(candidate.path@.take(i as int))),
        decreases candidate.path@.len() - i,
    {
        assert(texts(candidate.path@.take(i + 1)).drop_last() == texts(candidate.path@.take(i as int)));
        assert(texts(candidate.path@.take(i + 1)).last() == candidate.path@[i as int]@);
        if !is_dot_component(&candidate.path[i]) {
            let n = normalize_name(candidate.path[i].as_str());
            let ghost before = path@;
            path.push(n);
            assert(texts(path@) == texts(before).push(n@));
        }
        i = i + 1;
    }
    assert(candidate.path@.take(candidate.path@.len() as int) == candidate.path@);
    candidate.path = path;
}

/// The identity two candidates share when they describe one file: where
/// their first extent starts and their declared size. Content location is
/// the identity, not the name.
pub open spec fn spec_identity(c: FileCandidate) -> Option<(u64, u64)> {
    if c.extents@.len() == 0 {
        None
    } else {
        Some((c.extents@[0].source_range.offset, c.declared_size))
    }
}

fn identity(candidate: &FileCandidate) -> (r: Option<(u64, u64)>)
    ensures
        r == spec_identity(*candidate),
{
    if candidate.extents.len() == 0 {
        None
    } else {
        Some((candidate.extents[0].source_range.offset, candidate.declared_size))
    }
}

/// How an origin ranks: a live record above a deleted one above a carve.
pub open spec fn origin_rank(o: Origin) -> int {
    match o {
        Origin::ActiveFilesystem => 2,
        Origin::DeletedFilesystem => 1,
        Origin::Carved => 0,
    }
}

/// How a confidence band ranks, lowest first.
pub open spec fn confidence_rank(c: Confidence) -> int {
    match c {
        Confidence::Unknown => 0,
        Confidence::Low => 1,
        Confidence::Medium => 2,
        Confidence::High => 3,
    }
}

/// How well evidenced a candidate is: origin, then confidence, then how
/// many bytes it locates (0 when that overflows).
pub open spec fn spec_quality(c: FileCandidate) -> (int, int, int) {
    (
        origin_rank(c.origin),
        confidence_rank(c.spec_confidence()),
        if sum_lengths(c.extents@) <= u64::MAX {
            sum_lengths(c.extents@)
        } else {
            0
        },
    )
}

/// Whether quality `a` ranks strictly below `b`, comparing in order.
pub open spec fn quality_less(a: (int, int, int), b: (int, int, int)) -> bool {
    a.0 < b.0 || (a.0 == b.0 && (a.1 < b.1 || (a.1 == b.1 && a.2 < b.2)))
}

/// Ranks candidates so the best-evidenced one survives deduplication.
fn quality(candidate: &FileCandidate) -> (r: (u8, u8, u64))
    ensures
        (r.0 as int, r.1 as int, r.2 as int) == spec_quality(*candidate),
{
    let origin_rank: u8 = match candidate.origin {
        Origin::ActiveFilesystem => 2,
        Origin::DeletedFilesystem => 1,
        Origin::Carved => 0,
    };
    let confidence_rank: u8 = match candidate.confidence() {
        Confidence::Unknown => 0,
        Confidence::Low => 1,
        Confidence::Medium => 2,
        Confidence::High => 3,
    };
    let size = match candidate.recovered_size() {
        Ok(n) => n,
        Err(_) => 0,
    };
    (origin_rank, confidence_rank, size)
}

/// Whether quality `a` ranks strictly below `b`.
fn less_quality(a: (u8, u8, u64), b: (u8, u8, u64)) -> (r: bool)
    ensures
        r == quality_less((a.0 as int, a.1 as int, a.2 as int), (b.0 as int, b.1 as int, b.2 as int)),
{
    a.0 < b.0 || (a.0 == b.0 && (a.1 < b.1 || (a.1 == b.1 && a.2 < b.2)))
}

/// Whether candidates run from best to worst evidenced.
pub open spec fn strongest_first(s: Seq<FileCandidate>) -> bool {
    forall|i: int, j: int| 0 <= i < j < s.len() ==> !quality_less(#[trigger] spec_quality(s[i]), #[trigger] spec_quality(s[j]))
}

/// The first position from `j` on of `out` whose candidate is less well
/// evidenced than `c`, or the length of `out` where there is none.
pub open spec fn first_weaker_from(out: Seq<FileCandidate>, c: FileCandidate, j: int) -> int
    decreases out.len() - j,
{
    if j < 0 || j >= out.len() {
        out.len() as int
    } else if quality_less(spec_quality(out[j]), spec_quality(c)) {
        j
    } else {
        first_weaker_from(out, c, j + 1)
    }
}

/// The candidates ranked from best to worst evidenced, equals in input
/// order: each one placed before the first that is less well evidenced.
pub open spec fn ranked(s: Seq<FileCandidate>) -> Seq<FileCandidate>
    decreases s.len(),
{
    if s.len() == 0 {
        Seq::empty()
    } else {
        let r = ranked(s.drop_last());
        r.insert(first_weaker_from(r, s.last(), 0), s.last())
    }
}

/// The position the scan stops at is the first weaker one.
proof fn lemma_first_weaker(out: Seq<FileCandidate>, c: FileCandidate, j: int, pos: int)
    requires
        0 <= j <= pos <= out.len(),
        forall|i: int| j <= i < pos ==> !quality_less(spec_quality(#[trigger] out[i]), spec_quality(c)),
        pos < out.len() ==> quality_less(spec_quality(out[pos]), spec_quality(c)),
    ensures
        first_weaker_from(out, c, j) == pos,
    decreases pos - j,
{
    if j < pos {
        lemma_first_weaker(out, c, j + 1, pos);
    }
}

/// The candidates of `s` among its first `n` that deduplication keeps: each
/// one without an identity, and each whose identity no earlier kept one
/// has.
pub open spec fn kept(s: Seq<FileCandidate>, n: int) -> Seq<FileCandidate>
    decreases n,
{
    if n <= 0 {
        Seq::empty()
    } else {
        let k = kept(s, n - 1);
        match spec_identity(s[n - 1]) {
            Some(key) => if key_kept(k, key) {
                k
            } else {
                k.push(s[n - 1])
            },
            None => k.push(s[n - 1]),
        }
    }
}

/// What deduplication returns: the candidates ranked best first, equals in
/// input order, each kept unless one with its identity was kept before it.
pub open spec fn spec_deduplicate(s: Seq<FileCandidate>) -> Seq<FileCandidate> {
    kept(ranked(s), s.len() as int)
}

/// Whether `idx` sends each position of `out` to the position of `input`
/// that it was taken from, every position of `input` used once.
pub open spec fn placed_from(out: Seq<FileCandidate>, idx: Seq<int>, input: Seq<FileCandidate>) -> bool {
    &&& idx.len() == out.len()
    &&& forall|j: int| 0 <= j < out.len() ==> 0 <= #[trigger] idx[j] < input.len() && input[idx[j]] == out[j]
    &&& forall|u: int| 0 <= u < input.len() ==> #[trigger] position_used(idx, u)
}

/// Whether some entry of `idx` is `u`.
pub open spec fn position_used(idx: Seq<int>, u: int) -> bool {
    exists|j: int| 0 <= j < idx.len() && idx[j] == u
}

/// The candidates from best to worst evidenced, equals in their original
/// order.
fn strongest_first_order(candidates: Vec<FileCandidate>) -> (r: (Vec<FileCandidate>, Ghost<Seq<int>>))
    ensures
        strongest_first(r.0@),
        r.0@.to_multiset() == candidates@.to_multiset(),
        placed_from(r.0@, r.1@, candidates@),
        forall|i: int, j: int|
            0 <= i < j < r.0@.len() && spec_quality(#[trigger] r.0@[i]) == spec_quality(#[trigger] r.0@[j])
                ==> r.1@[i] < r.1@[j],
        r.0@ == ranked(candidates@),
{
    let mut input = candidates;
    let ghost all = input@;
    let n = input.len();
    let mut out: Vec<FileCandidate> = Vec::new();
    let mut ranks: Vec<(u8, u8, u64)> = Vec::new();
    let mut k: usize = 0;
    let ghost mut idx: Seq<int> = Seq::empty();
    while input.len() > 0
        invariant
            k <= all.len(),
            all.len() == n,
            placed_from(out@, idx, all.take(k as int)),
            forall|i: int, j: int|
                0 <= i < j < out@.len() && spec_quality(#[trigger] out@[i]) == spec_quality(#[trigger] out@[j])
                    ==> idx[i] < idx[j],
            input@ == all.subrange(k as int, all.len() as int),
            ranks@.len() == out@.len(),
            forall|j: int| 0 <= j < out@.len() ==> (ranks@[j].0 as int, ranks@[j].1 as int, ranks@[j].2 as int)
                == spec_quality(#[trigger] out@[j]),
            strongest_first(out@),
            out@.to_multiset() == all.take(k as int).to_multiset(),
            out@ == ranked(all.take(k as int)),
        decreases input@.len(),
    {
        let c = input.remove(0);
        assert(all.take(k + 1) == all.take(k as int).push(c));
        let q = quality(&c);
        let mut pos: usize = 0;
        while pos < out.len() && !less_quality(ranks[pos], q)
            invariant
                pos <= out@.len(),
                ranks@.len() == out@.len(),
                forall|j: int| 0 <= j < out@.len() ==> (ranks@[j].0 as int, ranks@[j].1 as int, ranks@[j].2 as int)
                    == spec_quality(#[trigger] out@[j]),
                forall|j: int| 0 <= j < pos ==> !quality_less(#[trigger] spec_quality(out@[j]), spec_quality(c)),
                (q.0 as int, q.1 as int, q.2 as int) == spec_quality(c),
            decreases out@.len() - pos,
        {
            assert(!quality_less(spec_quality(out@[pos as int]), spec_quality(c)));
            pos = pos + 1;
        }
        let ghost before = out@;
        assert(pos < before.len() ==> quality_less(spec_quality(before[pos as int]), spec_quality(c)));
        proof {
            lemma_first_weaker(before, c, 0, pos as int);
            assert(all.take(k + 1).drop_last() == all.take(k as int));
            assert(all.take(k + 1).last() == c);
        }
        proof {
            vstd::seq_lib::to_multiset_insert(before, pos as int, c);
            vstd::seq_lib::to_multiset_build(all.take(k as int), c);
        }
        let ghost old_ranks = ranks@;
        let ghost old_idx = idx;
        out.insert(pos, c);
        ranks.insert(pos, q);
        proof {
            idx = old_idx.insert(pos as int, k as int);
            let prev = all.take(k as int);
            let next = all.take(k + 1);
            assert forall|j: int| 0 <= j < out@.len() implies 0 <= #[trigger] idx[j] < next.len() && next[idx[j]] == out@[j] by {
                if j < pos {
                    assert(out@[j] == before[j] && idx[j] == old_idx[j]);
                } else if j > pos {
                    assert(out@[j] == before[j - 1] && idx[j] == old_idx[j - 1]);
                }
            }
            assert forall|u: int| 0 <= u < next.len() implies #[trigger] position_used(idx, u) by {
                if u == k {
                    assert(idx[pos as int] == u);
                } else {
                    assert(0 <= u < prev.len());
                    assert(position_used(old_idx, u));
                    let j0 = choose|j: int| 0 <= j < old_idx.len() && old_idx[j] == u;
                    if j0 < pos {
                        assert(idx[j0] == u);
                    } else {
                        assert(idx[j0 + 1] == u);
                    }
                }
            }
            assert forall|i: int, j: int|
                0 <= i < j < out@.len() && spec_quality(#[trigger] out@[i]) == spec_quality(#[trigger] out@[j])
                    implies idx[i] < idx[j] by {
                if j < pos {
                    assert(out@[i] == before[i] && out@[j] == before[j]);
                } else if j == pos {
                    assert(out@[i] == before[i]);
                } else if i == pos {
                    assert(out@[j] == before[j - 1]);
                    if j - 1 > pos {
                        assert(!quality_less(spec_quality(before[pos as int]), spec_quality(before[j - 1])));
                    }
                } else if i < pos {
                    assert(out@[i] == before[i] && out@[j] == before[j - 1]);
                } else {
                    assert(out@[i] == before[i - 1] && out@[j] == before[j - 1]);
                }
            }
        }
        assert forall|j: int| 0 <= j < out@.len() implies (ranks@[j].0 as int, ranks@[j].1 as int, ranks@[j].2 as int)
            == spec_quality(#[trigger] out@[j]) by {
            if j < pos {
                assert(out@[j] == before[j] && ranks@[j] == old_ranks[j]);
            } else if j > pos {
                assert(out@[j] == before[j - 1] && ranks@[j] == old_ranks[j - 1]);
            }
        }
        assert forall|i: int, j: int| 0 <= i < j < out@.len() implies !quality_less(
            #[trigger] spec_quality(out@[i]),
            #[trigger] spec_quality(out@[j]),
        ) by {
            if j < pos {
                assert(out@[i] == before[i] && out@[j] == before[j]);
                assert(!quality_less(spec_quality(before[i]), spec_quality(before[j])));
            } else if j == pos {
                assert(out@[i] == before[i]);
            } else if i == pos {
                assert(out@[j] == before[j - 1]);
                if j - 1 > pos {
                    assert(!quality_less(spec_quality(before[pos as int]), spec_quality(before[j - 1])));
                }
            } else if i < pos {
                assert(out@[i] == before[i] && out@[j] == before[j - 1]);
                assert(!quality_less(spec_quality(before[i]), spec_quality(before[j - 1])));
            } else {
                assert(out@[i] == before[i - 1] && out@[j] == before[j - 1]);
                assert(!quality_less(spec_quality(before[i - 1]), spec_quality(before[j - 1])));
            }
        }
        k = k + 1;
    }
    assert(all.take(all.len() as int) == all);
    (out, Ghost(idx))
}

/// Whether `o` is one of the first `t` candidates of `s`.
pub open spec fn in_prefix(o: FileCandidate, s: Seq<FileCandidate>, t: int) -> bool {
    exists|u: int| 0 <= u < t && s[u] == o
}

/// Whether some kept candidate shares `x`'s identity and is at least as
/// well evidenced.
pub open spec fn represented(x: FileCandidate, out: Seq<FileCandidate>) -> bool {
    exists|k: int|
        0 <= k < out.len() && spec_identity(out[k]) == spec_identity(x) && !quality_less(
            spec_quality(out[k]),
            spec_quality(x),
        )
}

/// Whether some kept candidate has identity `key`.
pub open spec fn key_kept(out: Seq<FileCandidate>, key: (u64, u64)) -> bool {
    exists|k: int| 0 <= k < out.len() && spec_identity(out[k]) == Some(key)
}

/// Whether kept candidates never share an identity.
pub open spec fn identities_distinct(out: Seq<FileCandidate>) -> bool {
    forall|i: int, j: int|
        0 <= i < j < out.len() && spec_identity(#[trigger] out[i]) is Some ==> spec_identity(out[i])
            != spec_identity(#[trigger] out[j])
}

/// Whether `c`, found at some position `v` of `input`, ranks above every
/// candidate of `input` that shares its identity, or equal to it and no
/// later in `input`.
pub open spec fn first_of_best(c: FileCandidate, input: Seq<FileCandidate>) -> bool {
    exists|v: int|
        0 <= v < input.len() && input[v] == c && forall|u: int|
            0 <= u < input.len() && spec_identity(#[trigger] input[u]) == spec_identity(c) ==> quality_less(
                spec_quality(input[u]),
                spec_quality(c),
            ) || (spec_quality(input[u]) == spec_quality(c) && v <= u)
}

/// Whether each kept candidate with an identity is the first of `s` to
/// carry it.
pub open spec fn kept_first(s: Seq<FileCandidate>, out: Seq<FileCandidate>) -> bool {
    forall|k: int|
        0 <= k < out.len() && spec_identity(#[trigger] out[k]) is Some ==> exists|p: int|
            0 <= p < s.len() && s[p] == out[k] && forall|u: int|
                0 <= u < p ==> spec_identity(#[trigger] s[u]) != spec_identity(out[k])
}

/// What holds after the first `t` candidates of `s` are processed.
pub open spec fn dedup_state(s: Seq<FileCandidate>, t: int, out: Seq<FileCandidate>, seen: Seq<(u64, u64)>) -> bool {
    &&& forall|k: int| 0 <= k < out.len() ==> #[trigger] in_prefix(out[k], s, t)
    &&& identities_distinct(out)
    &&& forall|key: (u64, u64)| #[trigger] seen.contains(key) <==> key_kept(out, key)
    &&& forall|u: int| 0 <= u < t && spec_identity(#[trigger] s[u]) is Some ==> represented(s[u], out)
    &&& forall|u: int| 0 <= u < t && spec_identity(#[trigger] s[u]) is None ==> out.contains(s[u])
}

/// Keeping candidate `t`, which has no identity or one not yet kept,
/// preserves the state.
proof fn lemma_dedup_keep(s: Seq<FileCandidate>, t: int, out: Seq<FileCandidate>, seen: Seq<(u64, u64)>)
    requires
        0 <= t < s.len(),
        dedup_state(s, t, out, seen),
        spec_identity(s[t]) matches Some(key) ==> !seen.contains(key),
    ensures
        dedup_state(
            s,
            t + 1,
            out.push(s[t]),
            match spec_identity(s[t]) {
                Some(key) => seen.push(key),
                None => seen,
            },
        ),
{
    let o2 = out.push(s[t]);
    let seen2 = match spec_identity(s[t]) {
        Some(key) => seen.push(key),
        None => seen,
    };
    assert forall|k: int| 0 <= k < o2.len() implies #[trigger] in_prefix(o2[k], s, t + 1) by {
        if k < out.len() {
            assert(o2[k] == out[k]);
            assert(in_prefix(out[k], s, t));
            let u = choose|u: int| 0 <= u < t && s[u] == out[k];
            assert(s[u] == o2[k]);
        } else {
            assert(s[t] == o2[k]);
        }
    }
    assert forall|i: int, j: int|
        0 <= i < j < o2.len() && spec_identity(#[trigger] o2[i]) is Some implies spec_identity(o2[i])
            != spec_identity(#[trigger] o2[j]) by {
        assert(o2[i] == out[i]);
        if j < out.len() {
            assert(o2[j] == out[j]);
        } else {
            if spec_identity(o2[i]) == spec_identity(o2[j]) {
                let key = spec_identity(o2[i])->0;
                assert(key_kept(out, key));
                assert(seen.contains(key));
            }
        }
    }
    assert forall|key: (u64, u64)| #[trigger] seen2.contains(key) <==> key_kept(o2, key) by {
        if seen2.contains(key) {
            let i = choose|i: int| 0 <= i < seen2.len() && seen2[i] == key;
            if i < seen.len() {
                assert(seen[i] == key);
                assert(seen.contains(key));
                assert(key_kept(out, key));
                let k = choose|k: int| 0 <= k < out.len() && spec_identity(out[k]) == Some(key);
                assert(o2[k] == out[k]);
            } else {
                assert(spec_identity(s[t]) == Some(key));
                assert(spec_identity(o2[out.len() as int]) == Some(key));
            }
        }
        if key_kept(o2, key) {
            let k = choose|k: int| 0 <= k < o2.len() && spec_identity(o2[k]) == Some(key);
            if k < out.len() {
                assert(o2[k] == out[k]);
                assert(key_kept(out, key));
                assert(seen.contains(key));
                let i = choose|i: int| 0 <= i < seen.len() && seen[i] == key;
                assert(seen2[i] == key);
            } else {
                assert(spec_identity(s[t]) == Some(key));
                assert(seen2[seen.len() as int] == key);
            }
        }
    }
    assert forall|u: int| 0 <= u < t + 1 && spec_identity(#[trigger] s[u]) is Some implies represented(s[u], o2) by {
        if u < t {
            let k = choose|k: int|
                0 <= k < out.len() && spec_identity(out[k]) == spec_identity(s[u]) && !quality_less(
                    spec_quality(out[k]),
                    spec_quality(s[u]),
                );
            assert(o2[k] == out[k]);
        } else {
            assert(o2[out.len() as int] == s[u]);
        }
    }
    assert forall|u: int| 0 <= u < t + 1 && spec_identity(#[trigger] s[u]) is None implies o2.contains(s[u]) by {
        if u < t {
            let k = choose|k: int| 0 <= k < out.len() && out[k] == s[u];
            assert(o2[k] == out[k]);
        } else {
            assert(o2[out.len() as int] == s[u]);
        }
    }
}

/// Skipping candidate `t`, whose identity is already kept, preserves the
/// state when candidates run from best to worst evidenced.
proof fn lemma_dedup_skip(s: Seq<FileCandidate>, t: int, out: Seq<FileCandidate>, seen: Seq<(u64, u64)>)
    requires
        0 <= t < s.len(),
        strongest_first(s),
        dedup_state(s, t, out, seen),
        spec_identity(s[t]) matches Some(key) && seen.contains(key),
    ensures
        dedup_state(s, t + 1, out, seen),
{
    let key = spec_identity(s[t])->0;
    let k = choose|k: int| 0 <= k < out.len() && spec_identity(out[k]) == Some(key);
    assert(in_prefix(out[k], s, t));
    let u = choose|u: int| 0 <= u < t && s[u] == out[k];
    assert(!quality_less(spec_quality(s[u]), spec_quality(s[t])));
    assert(represented(s[t], out));
    assert forall|k2: int| 0 <= k2 < out.len() implies #[trigger] in_prefix(out[k2], s, t + 1) by {
        assert(in_prefix(out[k2], s, t));
        let u2 = choose|u2: int| 0 <= u2 < t && s[u2] == out[k2];
        assert(s[u2] == out[k2]);
    }
}

/// Removes duplicate candidates, keeping the best-evidenced of each group
/// that shares an identity (the first of equals in input order). Candidates
/// without extents cannot be compared by content and are all kept, so
/// metadata-only findings are never discarded.
#[verifier::spinoff_prover]
#[verifier::rlimit(100)]
pub fn deduplicate(candidates: Vec<FileCandidate>) -> (r: Vec<FileCandidate>)
    ensures
        forall|k: int| 0 <= k < r@.len() ==> candidates@.contains(#[trigger] r@[k]),
        r@.to_multiset().subset_of(candidates@.to_multiset()),
        identities_distinct(r@),
        forall|c: FileCandidate| #[trigger] candidates@.contains(c) && spec_identity(c) is Some ==> represented(c, r@),
        forall|c: FileCandidate| #[trigger] candidates@.contains(c) && spec_identity(c) is None ==> r@.contains(c),
        forall|k: int| 0 <= k < r@.len() && spec_identity(#[trigger] r@[k]) is Some ==> first_of_best(r@[k], candidates@),
        strongest_first(r@),
        r@ == spec_deduplicate(candidates@),
        forall|x: FileCandidate, y: FileCandidate|
            #![trigger candidates@.contains(x), candidates@.contains(y)]
            candidates@.contains(x) && candidates@.contains(y) && spec_identity(x) is Some && spec_identity(x)
                == spec_identity(y) && origin_outranks(y.origin, x.origin) ==> !r@.contains(x),
{
    let ghost all = candidates@;
    let (mut sorted, Ghost(idx)) = strongest_first_order(candidates);
    let ghost s = sorted@;
    let n = sorted.len();
    let mut seen: Vec<(u64, u64)> = Vec::new();
    let mut out: Vec<FileCandidate> = Vec::new();
    let mut t: usize = 0;
    while sorted.len() > 0
        invariant
            t <= s.len(),
            s.len() == n,
            sorted@ == s.subrange(t as int, s.len() as int),
            strongest_first(s),
            dedup_state(s, t as int, out@, seen@),
            out@.to_multiset().subset_of(s.take(t as int).to_multiset()),
            kept_first(s, out@),
            strongest_first(out@),
            out@ == kept(s, t as int),
            forall|k: int, u: int|
                0 <= k < out@.len() && t <= u < s.len() ==> !quality_less(
                    #[trigger] spec_quality(out@[k]),
                    #[trigger] spec_quality(s[u]),
                ),
        decreases sorted@.len(),
    {
        let c = sorted.remove(0);
        assert(c == s[t as int]);
        let ghost before = out@;
        assert forall|u: int| t < u < s.len() implies !quality_less(spec_quality(c), #[trigger] spec_quality(s[u])) by {
            assert(!quality_less(spec_quality(s[t as int]), spec_quality(s[u])));
        }
        assert forall|k: int| 0 <= k < before.len() implies !quality_less(#[trigger] spec_quality(before[k]), spec_quality(c)) by {
            assert(!quality_less(spec_quality(before[k]), spec_quality(s[t as int])));
        }
        proof {
            broadcast use vstd::seq_lib::to_multiset_build, vstd::multiset::group_multiset_axioms;
            assert(s.take(t + 1) == s.take(t as int).push(c));
            assert(s.take(t + 1).to_multiset() == s.take(t as int).to_multiset().insert(c));
            assert(before.push(c).to_multiset() == before.to_multiset().insert(c));
            assert(before.to_multiset().subset_of(s.take(t + 1).to_multiset()));
            assert(before.push(c).to_multiset().subset_of(s.take(t + 1).to_multiset()));
        }
        match identity(&c) {
            Some(key) => {
                if contains_key(&seen, key) {
                    proof {
                        lemma_dedup_skip(s, t as int, out@, seen@);
                    }
                } else {
                    proof {
                        lemma_dedup_keep(s, t as int, out@, seen@);
                        assert forall|u: int| 0 <= u < t implies spec_identity(#[trigger] s[u]) != spec_identity(c) by {
                            if spec_identity(s[u]) == spec_identity(c) {
                                assert(represented(s[u], out@));
                                let kk = choose|kk: int|
                                    0 <= kk < out@.len() && spec_identity(out@[kk]) == spec_identity(s[u]) && !quality_less(
                                        spec_quality(out@[kk]),
                                        spec_quality(s[u]),
                                    );
                                assert(key_kept(out@, key));
                            }
                        }
                    }
                    seen.push(key);
                    out.push(c);
                    proof {
                        assert forall|k: int| 0 <= k < out@.len() && spec_identity(#[trigger] out@[k]) is Some implies exists|p: int|
                            0 <= p < s.len() && s[p] == out@[k] && forall|u: int|
                                0 <= u < p ==> spec_identity(#[trigger] s[u]) != spec_identity(out@[k]) by {
                            if k < before.len() {
                                assert(out@[k] == before[k]);
                            } else {
                                assert(s[t as int] == out@[k]);
                            }
                        }
                    }
                }
            },
            None => {
                proof {
                    lemma_dedup_keep(s, t as int, out@, seen@);
                }
                out.push(c);
                proof {
                    assert forall|k: int| 0 <= k < out@.len() && spec_identity(#[trigger] out@[k]) is Some implies exists|p: int|
                        0 <= p < s.len() && s[p] == out@[k] && forall|u: int|
                            0 <= u < p ==> spec_identity(#[trigger] s[u]) != spec_identity(out@[k]) by {
                        assert(out@[k] == before[k]);
                    }
                }
            },
        }
        proof {
            assert(out@ == kept(s, t + 1));
        }
        t = t + 1;
    }
    proof {
        assert(s.to_multiset().len() == s.len() && all.to_multiset().len() == all.len()) by {
            broadcast use vstd::seq_lib::group_to_multiset_ensures;
        }
        assert(out@ == spec_deduplicate(all));
        assert(s.take(t as int) == s);
        assert(out@.to_multiset().subset_of(all.to_multiset()));
        assert forall|k: int| 0 <= k < out@.len() implies all.contains(#[trigger] out@[k]) by {
            assert(in_prefix(out@[k], s, t as int));
            let u = choose|u: int| 0 <= u < t && s[u] == out@[k];
            vstd::seq_lib::to_multiset_contains(s, s[u]);
            vstd::seq_lib::to_multiset_contains(all, s[u]);
        }
        assert forall|c: FileCandidate| #[trigger] all.contains(c) && spec_identity(c) is Some implies represented(c, out@) by {
            vstd::seq_lib::to_multiset_contains(s, c);
            vstd::seq_lib::to_multiset_contains(all, c);
            let u = choose|u: int| 0 <= u < s.len() && s[u] == c;
        }
        assert forall|k: int| 0 <= k < out@.len() && spec_identity(#[trigger] out@[k]) is Some implies first_of_best(out@[k], all) by {
            let c = out@[k];
            let p = choose|p: int|
                0 <= p < s.len() && s[p] == c && forall|u: int| 0 <= u < p ==> spec_identity(#[trigger] s[u]) != spec_identity(c);
            let v = idx[p];
            assert forall|u: int|
                0 <= u < all.len() && spec_identity(#[trigger] all[u]) == spec_identity(c) implies quality_less(
                    spec_quality(all[u]),
                    spec_quality(c),
                ) || (spec_quality(all[u]) == spec_quality(c) && v <= u) by {
                assert(position_used(idx, u));
                let j = choose|j: int| 0 <= j < idx.len() && idx[j] == u;
                assert(s[j] == all[u]);
                if j < p {
                    assert(spec_identity(s[j]) != spec_identity(c));
                } else if j > p {
                    assert(!quality_less(spec_quality(s[p]), spec_quality(s[j])));
                }
            }
        }
        assert forall|c: FileCandidate| #[trigger] all.contains(c) && spec_identity(c) is None implies out@.contains(c) by {
            vstd::seq_lib::to_multiset_contains(s, c);
            vstd::seq_lib::to_multiset_contains(all, c);
            let u = choose|u: int| 0 <= u < s.len() && s[u] == c;
        }
    }
    proof {
        lemma_outranked_not_kept(candidates@, out@);
    }
    out
}

/// Whether origin `a` is stronger evidence than origin `b`: a live
/// filesystem record above a deleted one, and either above a carve.
pub open spec fn origin_outranks(a: Origin, b: Origin) -> bool {
    match (a, b) {
        (Origin::ActiveFilesystem, Origin::DeletedFilesystem) => true,
        (Origin::ActiveFilesystem, Origin::Carved) => true,
        (Origin::DeletedFilesystem, Origin::Carved) => true,
        _ => false,
    }
}

/// A candidate kept by deduplication is the best of its identity, so one
/// that another candidate of the same identity outranks by origin is
/// never kept, whatever their confidence and size.
proof fn lemma_outranked_not_kept(input: Seq<FileCandidate>, out: Seq<FileCandidate>)
    requires
        forall|k: int| 0 <= k < out.len() && spec_identity(#[trigger] out[k]) is Some ==> first_of_best(out[k], input),
    ensures
        forall|x: FileCandidate, y: FileCandidate|
            #![trigger input.contains(x), input.contains(y)]
            input.contains(x) && input.contains(y) && spec_identity(x) is Some && spec_identity(x) == spec_identity(y)
                && origin_outranks(y.origin, x.origin) ==> !out.contains(x),
{
    assert forall|x: FileCandidate, y: FileCandidate|
        #![trigger input.contains(x), input.contains(y)]
        input.contains(x) && input.contains(y) && spec_identity(x) is Some && spec_identity(x) == spec_identity(y)
            && origin_outranks(y.origin, x.origin) implies !out.contains(x) by {
        if out.contains(x) {
            let k = choose|k: int| 0 <= k < out.len() && out[k] == x;
            assert(first_of_best(out[k], input));
            let u = choose|u: int| 0 <= u < input.len() && input[u] == y;
            assert(spec_identity(input[u]) == spec_identity(x));
            assert(origin_rank(y.origin) > origin_rank(x.origin));
            assert(false);
        }
    }
}

/// Whether `key` occurs in `keys`.
fn contains_key(keys: &Vec<(u64, u64)>, key: (u64, u64)) -> (r: bool)
    ensures
        r == keys@.contains(key),
{
    let mut i: usize = 0;
    while i < keys.len()
        invariant
            i <= keys@.len(),
            forall|j: int| 0 <= j < i ==> keys@[j] != key,
        decreases keys@.len() - i,
    {
        if keys[i].0 == key.0 && keys[i].1 == key.1 {
            return true;
        }
        i = i + 1;
    }
    false
}

/// Whether two source ranges share a byte; ranges that merely touch do
/// not, and a range whose end overflows is left out.
pub open spec fn ranges_overlap(x: Extent, y: Extent) -> bool {
    &&& x.source_range.spec_end() <= u64::MAX
    &&& y.source_range.spec_end() <= u64::MAX
    &&& x.source_range.offset < y.source_range.spec_end()
    &&& y.source_range.offset < x.source_range.spec_end()
}

/// Whether two candidates' extents overlap in source space: the same bytes
/// cannot belong to two files, so at least one reconstruction is wrong.
pub fn extents_overlap(a: &[Extent], b: &[Extent]) -> (r: bool)
    ensures
        r == exists|i: int, j: int| 0 <= i < a@.len() && 0 <= j < b@.len() && #[trigger] ranges_overlap(a@[i], b@[j]),
{
    let mut i: usize = 0;
    while i < a.len()
        invariant
            i <= a@.len(),
            forall|p: int, q: int| 0 <= p < i && 0 <= q < b@.len() ==> !#[trigger] ranges_overlap(a@[p], b@[q]),
        decreases a@.len() - i,
    {
        let mut j: usize = 0;
        while j < b.len()
            invariant
                i < a@.len(),
                j <= b@.len(),
                forall|p: int, q: int| 0 <= p < i && 0 <= q < b@.len() ==> !#[trigger] ranges_overlap(a@[p], b@[q]),
                forall|q: int| 0 <= q < j ==> !#[trigger] ranges_overlap(a@[i as int], b@[q]),
            decreases b@.len() - j,
        {
            let x = a[i];
            let y = b[j];
            match (x.source_range.end(), y.source_range.end()) {
                (Ok(xe), Ok(ye)) => {
                    if x.source_range.offset < ye && y.source_range.offset < xe {
                        assert(ranges_overlap(a@[i as int], b@[j as int]));
                        return true;
                    }
                },
                _ => {},
            }
            j = j + 1;
        }
        i = i + 1;
    }
    false
}

} // verus!
