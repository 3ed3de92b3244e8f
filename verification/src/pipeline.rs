//! Turning raw findings into reportable candidates: normalisation,
//! deduplication and structural validation.

use vstd::prelude::*;
use crate::candidate::{CandidateId, SourceId};
use crate::range::{io_error, ByteRange, RecoveryError, RecoveryResult};
use crate::text::{chars_of, string_from_chars, string_push};
use crate::unicode::{is_whitespace, trim_ws_end, trim_ws_start, trimmed_end_len, trimmed_start_index};
use crate::pipeline::normalize::{lemma_trim_fixed, lemma_trim_subrange};

pub mod normalize;
pub mod validate;

verus! {

/// How a candidate was found.
#[derive(Clone, Copy, Debug, PartialEq, Eq, Hash, PartialOrd, Ord)]
pub enum CandidateEvidence {
    ActiveDirectoryEntry,
    DeletedDirectoryEntry,
    CarvedSignature,
}

impl CandidateEvidence {
    /// The score a kind of evidence starts a candidate at.
    pub open spec fn spec_base_score(self) -> u8 {
        match self {
            CandidateEvidence::ActiveDirectoryEntry => 90,
            CandidateEvidence::DeletedDirectoryEntry => 65,
            CandidateEvidence::CarvedSignature => 40,
        }
    }

    /// The score a kind of evidence starts a candidate at: a live directory
    /// entry above a deleted one above a carved signature.
    pub fn base_score(self) -> (r: u8)
        ensures
            r == self.spec_base_score(),
    {
        match self {
            CandidateEvidence::ActiveDirectoryEntry => 90,
            CandidateEvidence::DeletedDirectoryEntry => 65,
            CandidateEvidence::CarvedSignature => 40,
        }
    }
}

/// A file to recover: where it lies, how it was found, and how strongly.
#[derive(Clone, Debug, PartialEq, Eq)]
pub struct RecoveryCandidate {
    pub id: CandidateId,
    pub source_id: SourceId,
    pub path: String,
    pub size: u64,
    pub extents: Vec<ByteRange>,
    pub evidence: CandidateEvidence,
    pub score: u8,
}

/// The sum of the extents' lengths.
pub open spec fn extents_total(extents: Seq<ByteRange>) -> int
    decreases extents.len(),
{
    if extents.len() == 0 {
        0
    } else {
        extents_total(extents.drop_last()) + extents.last().length
    }
}

/// Whether each extent ends no later than the next one starts.
pub open spec fn extents_disjoint_in_order(extents: Seq<ByteRange>) -> bool {
    forall|i: int|
        0 <= i < extents.len() - 1 ==> (#[trigger] extents[i]).spec_end() <= u64::MAX && extents[i].spec_end()
            <= extents[i + 1].offset
}

/// Whether a path, size and extents make a consistent candidate: a usable
/// path, extents that add up to the size, and extents that do not overlap.
pub open spec fn fields_valid(path: Seq<char>, size: u64, extents: Seq<ByteRange>) -> bool {
    &&& path.len() != 0 && path != seq!['.'] && path != seq!['.', '.']
    &&& extents_total(extents) == size
    &&& extents_disjoint_in_order(extents)
}

/// Whether a candidate is consistent.
pub open spec fn candidate_valid(c: RecoveryCandidate) -> bool {
    fields_valid(c.path@, c.size, c.extents@)
}

impl RecoveryCandidate {
    /// A candidate with a normalised path and the score its evidence starts
    /// it at, refused when its path or extents are inconsistent.
    pub fn new(
        id: CandidateId,
        source_id: SourceId,
        path: &str,
        size: u64,
        extents: Vec<ByteRange>,
        evidence: CandidateEvidence,
    ) -> (r: RecoveryResult<RecoveryCandidate>)
        ensures
            r is Ok <==> (spec_normalize_path(path@) matches Some(p) && fields_valid(p, size, extents@)),
            r matches Ok(c) ==> Some(c.path@) == spec_normalize_path(path@) && c.score == evidence.spec_base_score()
                && c.size == size && c.extents@ == extents@ && c.evidence == evidence && c.id == id && c.source_id
                == source_id,
    {
        let path = normalize_path(path)?;
        let score = evidence.base_score();
        let candidate = RecoveryCandidate { id, source_id, path, size, extents, evidence, score };
        candidate.validate()?;
        Ok(candidate)
    }

    /// Checks the candidate: a path other than empty, `.` or `..`; extents
    /// whose lengths add up to its size; and extents that do not overlap.
    pub fn validate(&self) -> (r: RecoveryResult<()>)
        ensures
            r is Ok <==> candidate_valid(*self),
    {
        let p = chars_of(self.path.as_str());
        if p.len() == 0 || (p.len() == 1 && p[0] == '.') || (p.len() == 2 && p[0] == '.' && p[1] == '.') {
            proof {
                if p@.len() == 1 {
                    assert(p@ =~= seq!['.']);
                }
                if p@.len() == 2 {
                    assert(p@ =~= seq!['.', '.']);
                }
            }
            return Err(io_error("recovery candidate has an invalid path"));
        }
        proof {
            if p@ == seq!['.'] {
                assert(p@[0] == '.');
            }
            if p@ == seq!['.', '.'] {
                assert(p@[0] == '.' && p@[1] == '.');
            }
        }
        let mut total: u64 = 0;
        let mut i: usize = 0;
        while i < self.extents.len()
            invariant
                i <= self.extents@.len(),
                total == extents_total(self.extents@.take(i as int)),
            decreases self.extents@.len() - i,
        {
            assert(self.extents@.take(i + 1).drop_last() == self.extents@.take(i as int));
            total = match total.checked_add(self.extents[i].length) {
                Some(v) => v,
                None => {
                    proof {
                        lemma_extents_total_grows(self.extents@, i + 1);
                    }
                    return Err(RecoveryError::RangeOverflow);
                },
            };
            i = i + 1;
        }
        assert(self.extents@.take(self.extents@.len() as int) == self.extents@);
        if total != self.size {
            return Err(io_error("candidate extent length does not match candidate size"));
        }
        let mut k: usize = 1;
        while k < self.extents.len()
            invariant
                1 <= k,
                k <= self.extents@.len() || self.extents@.len() == 0,
                forall|j: int|
                    0 <= j < k - 1 && j < self.extents@.len() - 1 ==> (#[trigger] self.extents@[j]).spec_end()
                        <= u64::MAX && self.extents@[j].spec_end() <= self.extents@[j + 1].offset,
            decreases self.extents@.len() - k,
        {
            let left = self.extents[k - 1];
            let right = self.extents[k];
            let left_end = match left.end() {
                Ok(v) => v,
                Err(e) => return Err(e),
            };
            if left_end > right.offset {
                return Err(io_error("candidate extents overlap"));
            }
            k = k + 1;
        }
        Ok(())
    }

    /// The identity two candidates share when they describe one file: the
    /// same source, size and extents.
    pub fn dedup_key(&self) -> (r: (SourceId, u64, Vec<ByteRange>))
        ensures
            r.0.0@ == self.source_id.0@,
            r.1 == self.size,
            r.2@ == self.extents@,
    {
        let mut extents: Vec<ByteRange> = Vec::new();
        let mut i: usize = 0;
        while i < self.extents.len()
            invariant
                i <= self.extents@.len(),
                extents@ == self.extents@.take(i as int),
            decreases self.extents@.len() - i,
        {
            extents.push(self.extents[i]);
            i = i + 1;
        }
        assert(self.extents@.take(self.extents@.len() as int) == self.extents@);
        let source = SourceId(string_from_chars(&chars_of(self.source_id.0.as_str())));
        (source, self.size, extents)
    }
}

/// The running sum of extent lengths only grows.
proof fn lemma_extents_total_grows(extents: Seq<ByteRange>, k: int)
    requires
        0 <= k <= extents.len(),
    ensures
        extents_total(extents.take(k)) <= extents_total(extents),
    decreases extents.len() - k,
{
    if k < extents.len() {
        lemma_extents_total_grows(extents, k + 1);
        assert(extents.take(k + 1).drop_last() == extents.take(k));
    } else {
        assert(extents.take(k) == extents);
    }
}

/// Whether a character separates path components: `/` or `\\`.
pub open spec fn is_separator(c: char) -> bool {
    c == '/' || c == '\\'
}

/// The components of a path, split at every separator.
pub open spec fn split_parts(s: Seq<char>) -> Seq<Seq<char>>
    decreases s.len(),
{
    if s.len() == 0 {
        seq![Seq::empty()]
    } else {
        let prev = split_parts(s.drop_last());
        if is_separator(s.last()) {
            prev.push(Seq::empty())
        } else {
            prev.update(prev.len() - 1, prev.last().push(s.last()))
        }
    }
}

/// What one component does to the components kept so far: a blank or `.`
/// component is dropped, `..` removes the last kept one (refused at the
/// root), and a component holding NUL is refused.
pub open spec fn resolve_step(stack: Seq<Seq<char>>, raw: Seq<char>) -> Option<Seq<Seq<char>>> {
    let c = trim_ws_start(trim_ws_end(raw));
    if c.len() == 0 || c == seq!['.'] {
        Some(stack)
    } else if c == seq!['.', '.'] {
        if stack.len() == 0 {
            None
        } else {
            Some(stack.drop_last())
        }
    } else if c.contains('\0') {
        None
    } else {
        Some(stack.push(c))
    }
}

/// The components a path resolves to, or `None` where it escapes its root
/// or holds NUL.
pub open spec fn resolve_parts(parts: Seq<Seq<char>>) -> Option<Seq<Seq<char>>>
    decreases parts.len(),
{
    if parts.len() == 0 {
        Some(Seq::empty())
    } else {
        match resolve_parts(parts.drop_last()) {
            None => None,
            Some(stack) => resolve_step(stack, parts.last()),
        }
    }
}

/// Components joined with `/`.
pub open spec fn join_slash(parts: Seq<Seq<char>>) -> Seq<char>
    decreases parts.len(),
{
    if parts.len() == 0 {
        Seq::empty()
    } else if parts.len() == 1 {
        parts[0]
    } else {
        join_slash(parts.drop_last()) + seq!['/'] + parts.last()
    }
}

/// A candidate path made relative and canonical: both separators split,
/// components trimmed, blank and `.` components dropped and `..` resolved;
/// `None` where the path escapes its root, holds NUL, or is left empty.
pub open spec fn spec_normalize_path(path: Seq<char>) -> Option<Seq<char>> {
    match resolve_parts(split_parts(path)) {
        Some(stack) => if stack.len() == 0 {
            None
        } else {
            Some(join_slash(stack))
        },
        None => None,
    }
}

/// Whether `c` holds no separator.
pub open spec fn no_separator(c: Seq<char>) -> bool {
    forall|i: int| 0 <= i < c.len() ==> !is_separator(#[trigger] c[i])
}

/// Whether `c` is a component a normalised path keeps: not empty, neither
/// `.` nor `..`, without NUL or a separator, and with no whitespace at
/// either end.
pub open spec fn clean_component(c: Seq<char>) -> bool {
    &&& c.len() > 0
    &&& c != seq!['.'] && c != seq!['.', '.']
    &&& !c.contains('\0')
    &&& no_separator(c)
    &&& !is_whitespace(c[0]) && !is_whitespace(c.last())
}

/// Splitting a path yields at least one component, none holding a
/// separator.
proof fn lemma_split_no_separator(s: Seq<char>)
    ensures
        split_parts(s).len() >= 1,
        forall|k: int| 0 <= k < split_parts(s).len() ==> no_separator(#[trigger] split_parts(s)[k]),
    decreases s.len(),
{
    if s.len() > 0 {
        lemma_split_no_separator(s.drop_last());
        let prev = split_parts(s.drop_last());
        if !is_separator(s.last()) {
            let grown = prev.last().push(s.last());
            assert(no_separator(grown)) by {
                assert(no_separator(prev[prev.len() - 1]));
                assert forall|i: int| 0 <= i < grown.len() implies !is_separator(#[trigger] grown[i]) by {
                    if i < prev.last().len() {
                        assert(grown[i] == prev[prev.len() - 1][i]);
                    }
                }
            }
        }
        assert forall|k: int| 0 <= k < split_parts(s).len() implies no_separator(#[trigger] split_parts(s)[k]) by {
            if k < prev.len() - 1 || (is_separator(s.last()) && k < prev.len()) {
                assert(split_parts(s)[k] == prev[k]);
            } else if is_separator(s.last()) {
                assert(split_parts(s)[k] =~= Seq::<char>::empty());
            }
        }
    }
}

/// The components a path without separators-inside-components resolves to
/// are all clean.
proof fn lemma_resolve_clean(parts: Seq<Seq<char>>)
    requires
        forall|k: int| 0 <= k < parts.len() ==> no_separator(#[trigger] parts[k]),
        resolve_parts(parts) is Some,
    ensures
        forall|k: int| 0 <= k < resolve_parts(parts)->0.len() ==> clean_component(#[trigger] resolve_parts(parts)->0[k]),
    decreases parts.len(),
{
    if parts.len() > 0 {
        let init = parts.drop_last();
        assert forall|k: int| 0 <= k < init.len() implies no_separator(#[trigger] init[k]) by {
            assert(init[k] == parts[k]);
        }
        lemma_resolve_clean(init);
        let stack = resolve_parts(init)->0;
        let raw = parts.last();
        let c = trim_ws_start(trim_ws_end(raw));
        lemma_trim_subrange(raw);
        let (a, b) = choose|a: int, b: int| 0 <= a <= b <= raw.len() && #[trigger] trim_ws_start(trim_ws_end(raw)) == raw.subrange(a, b);
        assert(no_separator(raw)) by {
            assert(raw == parts[parts.len() - 1]);
        }
        assert(no_separator(c)) by {
            assert forall|i: int| 0 <= i < c.len() implies !is_separator(#[trigger] c[i]) by {
                assert(c[i] == raw[a + i]);
            }
        }
        let r = resolve_parts(parts)->0;
        if c.len() == 0 || c == seq!['.'] {
            assert(r == stack);
        } else if c == seq!['.', '.'] {
            assert(r == stack.drop_last());
            assert forall|k: int| 0 <= k < r.len() implies clean_component(#[trigger] r[k]) by {
                assert(r[k] == stack[k]);
            }
        } else {
            assert(r == stack.push(c));
            assert forall|k: int| 0 <= k < r.len() implies clean_component(#[trigger] r[k]) by {
                if k < stack.len() {
                    assert(r[k] == stack[k]);
                }
            }
        }
    }
}

/// Splitting `a` followed by separator-free `b` extends the last component
/// of `a`'s split by `b`.
proof fn lemma_split_append(a: Seq<char>, b: Seq<char>)
    requires
        no_separator(b),
    ensures
        split_parts(a + b) == split_parts(a).update(
            split_parts(a).len() - 1,
            split_parts(a).last() + b,
        ),
    decreases b.len(),
{
    lemma_split_no_separator(a);
    if b.len() == 0 {
        assert(a + b =~= a);
        assert(split_parts(a).last() + b =~= split_parts(a).last());
        assert(split_parts(a).update(split_parts(a).len() - 1, split_parts(a).last()) =~= split_parts(a));
    } else {
        let b0 = b.drop_last();
        assert(no_separator(b0)) by {
            assert forall|i: int| 0 <= i < b0.len() implies !is_separator(#[trigger] b0[i]) by {
                assert(b0[i] == b[i]);
            }
        }
        lemma_split_append(a, b0);
        assert((a + b).drop_last() =~= a + b0);
        assert((a + b).last() == b.last());
        assert(!is_separator(b[b.len() - 1]));
        let sa = split_parts(a);
        let prev = split_parts(a + b0);
        assert(prev.last() == sa.last() + b0);
        assert(split_parts(a + b) == prev.update(prev.len() - 1, prev.last().push(b.last())));
        assert((sa.last() + b0).push(b.last()) =~= sa.last() + b);
        assert(split_parts(a + b) =~= sa.update(sa.len() - 1, sa.last() + b));
    }
}

/// Splitting separator-free components joined with `/` gives them back.
proof fn lemma_split_join(parts: Seq<Seq<char>>)
    requires
        parts.len() >= 1,
        forall|k: int| 0 <= k < parts.len() ==> no_separator(#[trigger] parts[k]),
    ensures
        split_parts(join_slash(parts)) == parts,
    decreases parts.len(),
{
    if parts.len() == 1 {
        lemma_split_append(Seq::empty(), parts[0]);
        assert(Seq::<char>::empty() + parts[0] =~= parts[0]);
        assert(split_parts(Seq::<char>::empty()) == seq![Seq::<char>::empty()]);
        assert(Seq::<char>::empty() + parts[0] =~= parts[0]);
        assert(seq![Seq::<char>::empty()].update(0, Seq::<char>::empty() + parts[0]) =~= parts);
    } else {
        let init = parts.drop_last();
        assert forall|k: int| 0 <= k < init.len() implies no_separator(#[trigger] init[k]) by {
            assert(init[k] == parts[k]);
        }
        lemma_split_join(init);
        let x = join_slash(init);
        let xs = x + seq!['/'];
        assert(xs.drop_last() =~= x);
        assert(xs.last() == '/');
        assert(split_parts(xs) == split_parts(x).push(Seq::empty()));
        assert(no_separator(parts.last())) by {
            assert(parts.last() == parts[parts.len() - 1]);
        }
        lemma_split_append(xs, parts.last());
        assert(Seq::<char>::empty() + parts.last() =~= parts.last());
        assert(split_parts(xs + parts.last()) =~= init.push(parts.last()));
        assert(init.push(parts.last()) =~= parts);
    }
}

/// Clean components resolve to themselves.
proof fn lemma_resolve_fixed(parts: Seq<Seq<char>>)
    requires
        forall|k: int| 0 <= k < parts.len() ==> clean_component(#[trigger] parts[k]),
    ensures
        resolve_parts(parts) == Some(parts),
    decreases parts.len(),
{
    if parts.len() > 0 {
        let init = parts.drop_last();
        assert forall|k: int| 0 <= k < init.len() implies clean_component(#[trigger] init[k]) by {
            assert(init[k] == parts[k]);
        }
        lemma_resolve_fixed(init);
        let last = parts.last();
        assert(clean_component(parts[parts.len() - 1]));
        lemma_trim_fixed(last);
        assert(init.push(last) =~= parts);
    }
}

/// Normalising a normalised path changes nothing, and a normalised path
/// splits into clean components only: none empty, `.` or `..`, none with
/// NUL, a separator or whitespace at an end.
pub proof fn lemma_normalize_path_idempotent(path: Seq<char>)
    requires
        spec_normalize_path(path) is Some,
    ensures
        spec_normalize_path(spec_normalize_path(path)->0) == spec_normalize_path(path),
        split_parts(spec_normalize_path(path)->0).len() >= 1,
        forall|k: int|
            0 <= k < split_parts(spec_normalize_path(path)->0).len() ==> clean_component(
                #[trigger] split_parts(spec_normalize_path(path)->0)[k],
            ),
{
    let parts = split_parts(path);
    lemma_split_no_separator(path);
    lemma_resolve_clean(parts);
    let stack = resolve_parts(parts)->0;
    assert forall|k: int| 0 <= k < stack.len() implies no_separator(#[trigger] stack[k]) by {
        assert(clean_component(stack[k]));
    }
    lemma_split_join(stack);
    lemma_resolve_fixed(stack);
}

/// The texts of character vectors.
pub open spec fn char_texts(v: Seq<Vec<char>>) -> Seq<Seq<char>> {
    v.map_values(|x: Vec<char>| x@)
}

/// Applies one raw component to the kept components.
fn apply_component(stack: &mut Vec<Vec<char>>, raw: &Vec<char>) -> (r: RecoveryResult<()>)
    ensures
        match resolve_step(char_texts(old(stack)@), raw@) {
            Some(s) => r is Ok && char_texts(final(stack)@) == s,
            None => r is Err,
        },
{
    let end = trimmed_end_len(raw);
    let start = trimmed_start_index(raw, end);
    let c = crate::bytes::copy_range(raw.as_slice(), start, end);
    assert(c@ == trim_ws_start(trim_ws_end(raw@)));
    if c.len() == 0 || (c.len() == 1 && c[0] == '.') {
        if c.len() == 1 {
            assert(c@ =~= seq!['.']);
        }
        return Ok(());
    }
    if c.len() == 2 && c[0] == '.' && c[1] == '.' {
        assert(c@ =~= seq!['.', '.']);
        if stack.len() == 0 {
            return Err(io_error("candidate path escapes its recovery root"));
        }
        let ghost before = char_texts(stack@);
        stack.pop();
        assert(char_texts(stack@) =~= before.drop_last());
        return Ok(());
    }
    proof {
        if c@ == seq!['.'] {
            assert(c@[0] == '.');
        }
        if c@ == seq!['.', '.'] {
            assert(c@[0] == '.' && c@[1] == '.');
        }
    }
    let mut k: usize = 0;
    while k < c.len()
        invariant
            k <= c@.len(),
            forall|j: int| 0 <= j < k ==> c@[j] != '\0',
            c@ == trim_ws_start(trim_ws_end(raw@)),
            c@.len() != 0 && c@ != seq!['.'] && c@ != seq!['.', '.'],
            stack@ == old(stack)@,
        decreases c@.len() - k,
    {
        if c[k] == '\0' {
            assert(c@.contains('\0'));
            return Err(io_error("candidate path contains NUL"));
        }
        k = k + 1;
    }
    let ghost before = char_texts(stack@);
    stack.push(c);
    assert(char_texts(stack@) =~= before.push(c@));
    Ok(())
}

/// Makes a candidate path relative and canonical: `\\` and `/` both
/// separate components, each component is trimmed, blank and `.` components
/// are dropped and `..` is resolved. A path that escapes its root, holds
/// NUL, or is left empty is refused.
pub fn normalize_path(path: &str) -> (r: RecoveryResult<String>)
    ensures
        match spec_normalize_path(path@) {
            Some(p) => r matches Ok(s) && s@ == p,
            None => r is Err,
        },
{
    let chars = chars_of(path);
    let mut stack: Vec<Vec<char>> = Vec::new();
    let mut current: Vec<char> = Vec::new();
    let mut failed = false;
    let ghost mut done: Seq<Seq<char>> = Seq::empty();
    let mut i: usize = 0;
    while i < chars.len()
        invariant
            i <= chars@.len(),
            chars@ == path@,
            split_parts(chars@.take(i as int)) == done.push(current@),
            !failed ==> resolve_parts(done) == Some(char_texts(stack@)),
            failed ==> resolve_parts(done) is None,
        decreases chars@.len() - i,
    {
        let c = chars[i];
        assert(chars@.take(i + 1).drop_last() == chars@.take(i as int));
        if c == '/' || c == '\\' {
            if !failed {
                let r = apply_component(&mut stack, &current);
                if r.is_err() {
                    failed = true;
                }
            }
            proof {
                assert(done.push(current@).drop_last() == done);
                done = done.push(current@);
            }
            current = Vec::new();
            assert(split_parts(chars@.take(i + 1)) == done.push(current@));
        } else {
            let ghost before = current@;
            current.push(c);
            assert(done.push(before).update(done.len() as int, before.push(c)) =~= done.push(current@));
        }
        i = i + 1;
    }
    assert(chars@.take(chars@.len() as int) == chars@);
    assert(done.push(current@).drop_last() == done);
    if failed {
        return Err(io_error("candidate path is not a valid relative path"));
    }
    apply_component(&mut stack, &current)?;
    if stack.len() == 0 {
        return Err(io_error("candidate path is empty"));
    }
    let ghost parts = char_texts(stack@);
    let mut out = String::new();
    let mut k: usize = 0;
    while k < stack.len()
        invariant
            k <= stack@.len(),
            stack@.len() > 0,
            parts == char_texts(stack@),
            out@ == join_slash(parts.take(k as int)),
        decreases stack@.len() - k,
    {
        assert(parts.take(k + 1).drop_last() == parts.take(k as int));
        assert(parts.take(k + 1).last() == stack@[k as int]@);
        let ghost before = out@;
        if k > 0 {
            string_push(&mut out, '/');
        }
        let comp = &stack[k];
        let mut j: usize = 0;
        let ghost mid = out@;
        while j < comp.len()
            invariant
                j <= comp@.len(),
                out@ == mid + comp@.take(j as int),
            decreases comp@.len() - j,
        {
            string_push(&mut out, comp[j]);
            assert(comp@.take(j + 1) == comp@.take(j as int).push(comp@[j as int]));
            j = j + 1;
        }
        assert(comp@.take(comp@.len() as int) == comp@);
        proof {
            if k == 0 {
                assert(parts.take(1)[0] == stack@[0]@);
                assert(before == Seq::<char>::empty());
            }
        }
        k = k + 1;
    }
    assert(parts.take(stack@.len() as int) == parts);
    Ok(out)
}

/// Whether two candidates share a source, a size and extents.
pub open spec fn same_key(a: RecoveryCandidate, b: RecoveryCandidate) -> bool {
    a.source_id.0@ == b.source_id.0@ && a.size == b.size && a.extents@ == b.extents@
}

/// Whether two candidates share a source, a size and extents.
fn keys_equal(a: &RecoveryCandidate, b: &RecoveryCandidate) -> (r: bool)
    ensures
        r == same_key(*a, *b),
{
    if a.size != b.size || a.extents.len() != b.extents.len() {
        return false;
    }
    let mut i: usize = 0;
    while i < a.extents.len()
        invariant
            i <= a.extents@.len(),
            a.extents@.len() == b.extents@.len(),
            forall|j: int| 0 <= j < i ==> a.extents@[j] == b.extents@[j],
        decreases a.extents@.len() - i,
    {
        if a.extents[i].offset != b.extents[i].offset || a.extents[i].length != b.extents[i].length {
            assert(a.extents@ != b.extents@ || a.extents@[i as int] == b.extents@[i as int]);
            return false;
        }
        i = i + 1;
    }
    assert(a.extents@ =~= b.extents@);
    let x = chars_of(a.source_id.0.as_str());
    let y = chars_of(b.source_id.0.as_str());
    if x.len() != y.len() {
        return false;
    }
    let mut k: usize = 0;
    while k < x.len()
        invariant
            k <= x@.len(),
            x@.len() == y@.len(),
            x@ == a.source_id.0@,
            y@ == b.source_id.0@,
            forall|j: int| 0 <= j < k ==> x@[j] == y@[j],
        decreases x@.len() - k,
    {
        if x[k] != y[k] {
            assert(x@[k as int] != y@[k as int]);
            return false;
        }
        k = k + 1;
    }
    assert(x@ =~= y@);
    true
}

/// Whether `c`, the `v`-th of `input`, outscores every other candidate of
/// `input` with its key, or ties with it and comes no later.
pub open spec fn first_highest(c: RecoveryCandidate, v: int, input: Seq<RecoveryCandidate>) -> bool {
    &&& 0 <= v < input.len()
    &&& input[v] == c
    &&& forall|u: int|
        0 <= u < input.len() && same_key(#[trigger] input[u], c) ==> input[u].score < c.score || (input[u].score
            == c.score && v <= u)
}

/// Whether `c` is, at some position of `input`, the first of the highest
/// scoring candidates with its key.
pub open spec fn kept_first_highest(c: RecoveryCandidate, input: Seq<RecoveryCandidate>) -> bool {
    exists|v: int| first_highest(c, v, input)
}

/// Whether the key of `x` occurs in `input` before any occurrence of the
/// key of `y`.
pub open spec fn key_appears_before(x: RecoveryCandidate, y: RecoveryCandidate, input: Seq<RecoveryCandidate>) -> bool {
    exists|a: int|
        0 <= a < input.len() && same_key(#[trigger] input[a], x) && forall|b: int|
            0 <= b <= a ==> !same_key(#[trigger] input[b], y)
}

/// Keeps one candidate per source, size and extents: the first with the
/// highest score, in the order keys first appear. A later candidate with the
/// same key replaces the kept one only when it scores higher.
#[verifier::spinoff_prover]
#[verifier::rlimit(80)]
pub fn deduplicate(candidates: Vec<RecoveryCandidate>) -> (r: Vec<RecoveryCandidate>)
    ensures
        forall|k: int| 0 <= k < r@.len() ==> candidates@.contains(#[trigger] r@[k]),
        forall|i: int, j: int| 0 <= i < j < r@.len() ==> !same_key(#[trigger] r@[i], #[trigger] r@[j]),
        forall|c: RecoveryCandidate|
            #[trigger] candidates@.contains(c) ==> exists|k: int|
                0 <= k < r@.len() && same_key(#[trigger] r@[k], c) && r@[k].score >= c.score,
        forall|k: int| 0 <= k < r@.len() ==> kept_first_highest(#[trigger] r@[k], candidates@),
        forall|i: int, j: int| 0 <= i < j < r@.len() ==> key_appears_before(#[trigger] r@[i], #[trigger] r@[j], candidates@),
{
    let mut input = candidates;
    let ghost all = input@;
    let n = input.len();
    let mut output: Vec<RecoveryCandidate> = Vec::new();
    let mut t: usize = 0;
    let ghost mut origin: Seq<int> = Seq::empty();
    while input.len() > 0
        invariant
            t <= all.len(),
            all.len() == n,
            input@ == all.subrange(t as int, all.len() as int),
            origin.len() == output@.len(),
            forall|k: int| 0 <= k < output@.len() ==> #[trigger] first_highest(output@[k], origin[k], all.take(t as int)),
            forall|k: int| 0 <= k < output@.len() ==> all.take(t as int).contains(#[trigger] output@[k]),
            forall|i: int, j: int|
                0 <= i < j < output@.len() ==> key_appears_before(#[trigger] output@[i], #[trigger] output@[j], all.take(t as int)),
            forall|i: int, j: int| 0 <= i < j < output@.len() ==> !same_key(#[trigger] output@[i], #[trigger] output@[j]),
            forall|u: int|
                0 <= u < t ==> exists|k: int|
                    0 <= k < output@.len() && same_key(#[trigger] output@[k], #[trigger] all[u]) && output@[k].score
                        >= all[u].score,
        decreases input@.len(),
    {
        let c = input.remove(0);
        assert(c == all[t as int]);
        assert(all.take(t + 1) == all.take(t as int).push(c));
        let mut pos: usize = 0;
        while pos < output.len() && !keys_equal(&output[pos], &c)
            invariant
                pos <= output@.len(),
                forall|j: int| 0 <= j < pos ==> !same_key(#[trigger] output@[j], c),
            decreases output@.len() - pos,
        {
            pos = pos + 1;
        }
        let ghost before = output@;
        let ghost old_origin = origin;
        let ghost prev = all.take(t as int);
        let ghost next = all.take(t + 1);
        if pos < output.len() {
            assert(same_key(before[pos as int], c));
            if c.score > output[pos].score {
                output.set(pos, c);
                proof {
                    origin = old_origin.update(pos as int, t as int);
                }
            }
        } else {
            output.push(c);
            proof {
                origin = old_origin.push(t as int);
            }
        }
        proof {
            assert forall|i: int, j: int|
                0 <= i < j < output@.len() implies key_appears_before(#[trigger] output@[i], #[trigger] output@[j], next) by {
                if j < before.len() {
                    assert(same_key(output@[i], before[i]) && same_key(output@[j], before[j]));
                    assert(key_appears_before(before[i], before[j], prev));
                    let a = choose|a: int|
                        0 <= a < prev.len() && same_key(#[trigger] prev[a], before[i]) && forall|b: int|
                            0 <= b <= a ==> !same_key(#[trigger] prev[b], before[j]);
                    assert(same_key(next[a], output@[i]));
                    assert forall|b: int| 0 <= b <= a implies !same_key(#[trigger] next[b], output@[j]) by {
                        assert(next[b] == prev[b]);
                        assert(!same_key(prev[b], before[j]));
                    }
                } else {
                    assert(output@[j] == c && output@[i] == before[i]);
                    let o = old_origin[i];
                    assert(first_highest(before[i], o, prev));
                    assert(same_key(next[o], before[i]));
                    assert forall|b: int| 0 <= b <= o implies !same_key(#[trigger] next[b], c) by {
                        assert(next[b] == all[b]);
                        let k0 = choose|k0: int|
                            0 <= k0 < before.len() && same_key(#[trigger] before[k0], all[b]) && before[k0].score >= all[b].score;
                        assert(!same_key(before[k0], c));
                    }
                }
            }
            assert forall|k: int| 0 <= k < output@.len() implies #[trigger] first_highest(output@[k], origin[k], next) by {
                if k < before.len() && k != pos {
                    assert(output@[k] == before[k] && origin[k] == old_origin[k]);
                    assert(first_highest(before[k], old_origin[k], prev));
                    if same_key(c, before[k]) {
                        if k < pos {
                            assert(!same_key(before[k], c));
                        } else {
                            assert(same_key(before[pos as int], before[k]));
                            assert(!same_key(before[pos as int], before[k]));
                        }
                    }
                    assert forall|u: int| 0 <= u < next.len() && same_key(#[trigger] next[u], before[k]) implies next[u].score
                        < before[k].score || (next[u].score == before[k].score && old_origin[k] <= u) by {
                        if u < t {
                            assert(next[u] == prev[u]);
                        }
                    }
                } else if k == pos && pos < before.len() {
                    assert(first_highest(before[k], old_origin[k], prev));
                    assert forall|u: int| 0 <= u < next.len() && same_key(#[trigger] next[u], output@[k]) implies next[u].score
                        < output@[k].score || (next[u].score == output@[k].score && origin[k] <= u) by {
                        if u < t {
                            assert(next[u] == prev[u]);
                            assert(same_key(prev[u], before[k]));
                        }
                    }
                } else {
                    assert(output@[k] == c && origin[k] == t);
                    assert forall|u: int| 0 <= u < next.len() && same_key(#[trigger] next[u], c) implies next[u].score
                        < c.score || (next[u].score == c.score && t <= u) by {
                        if u < t {
                            assert(next[u] == all[u]);
                            let k0 = choose|k0: int|
                                0 <= k0 < before.len() && same_key(#[trigger] before[k0], all[u]) && before[k0].score >= all[u].score;
                            assert(!same_key(before[k0], c));
                        }
                    }
                }
            }
            assert forall|k: int| 0 <= k < output@.len() implies all.take(t + 1).contains(#[trigger] output@[k]) by {
                if k < before.len() && output@[k] == before[k] {
                    assert(all.take(t as int).contains(before[k]));
                    let q = choose|q: int| 0 <= q < t && all.take(t as int)[q] == before[k];
                    assert(all.take(t + 1)[q] == before[k]);
                } else {
                    assert(output@[k] == c);
                    assert(all.take(t + 1)[t as int] == c);
                }
            }
            assert forall|i: int, j: int| 0 <= i < j < output@.len() implies !same_key(#[trigger] output@[i], #[trigger] output@[j]) by {
                if pos < before.len() {
                    assert(same_key(output@[pos as int], before[pos as int]));
                    if i != pos && j != pos {
                        assert(output@[i] == before[i] && output@[j] == before[j]);
                    } else if i == pos {
                        assert(output@[j] == before[j]);
                        assert(!same_key(before[i], before[j]));
                    } else {
                        assert(output@[i] == before[i]);
                        assert(!same_key(before[i], before[j]));
                    }
                } else {
                    if j < before.len() {
                        assert(output@[i] == before[i] && output@[j] == before[j]);
                    } else {
                        assert(output@[i] == before[i]);
                    }
                }
            }
            assert forall|u: int| 0 <= u < t + 1 implies exists|k: int|
                0 <= k < output@.len() && same_key(#[trigger] output@[k], #[trigger] all[u]) && output@[k].score
                    >= all[u].score by {
                if u < t {
                    let k0 = choose|k: int|
                        0 <= k < before.len() && same_key(#[trigger] before[k], all[u]) && before[k].score >= all[u].score;
                    if k0 == pos && pos < before.len() {
                        assert(same_key(output@[k0], all[u]));
                    } else {
                        assert(output@[k0] == before[k0]);
                    }
                } else {
                    if pos < before.len() {
                        assert(same_key(output@[pos as int], c));
                    } else {
                        assert(output@[before.len() as int] == c);
                    }
                }
            }
        }
        t = t + 1;
    }
    proof {
        assert(all.take(all.len() as int) == all);
        assert forall|c: RecoveryCandidate| #[trigger] all.contains(c) implies exists|k: int|
            0 <= k < output@.len() && same_key(#[trigger] output@[k], c) && output@[k].score >= c.score by {
            let u = choose|u: int| 0 <= u < all.len() && all[u] == c;
        }
        assert forall|i: int, j: int| 0 <= i < j < output@.len() implies key_appears_before(
            #[trigger] output@[i],
            #[trigger] output@[j],
            all,
        ) by {
            assert(key_appears_before(output@[i], output@[j], all.take(t as int)));
        }
        assert forall|k: int| 0 <= k < output@.len() implies kept_first_highest(#[trigger] output@[k], all) by {
            assert(first_highest(output@[k], origin[k], all.take(t as int)));
        }
    }
    output
}

} // verus!
