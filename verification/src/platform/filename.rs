//! Recovered-filename sanitisation for the Windows output path.
//!
//! Recovered names come from untrusted on-disk metadata and may be illegal,
//! reserved, or hostile. Sanitisation runs on every platform so that output
//! written on one system stays portable to Windows.
//!
//! Every substitution is reported, so the original on-disk name is preserved as
//! provenance rather than silently lost.

use vstd::prelude::*;
use crate::text::{chars_of, string_from_chars};

verus! {

/// Windows caps a single path component at 255 characters.
pub const MAX_COMPONENT: usize = 255;

/// Outcome of sanitising one recovered name.
#[derive(Clone, Debug, PartialEq, Eq)]
pub struct SanitizedName {
    /// Name safe to create on Windows.
    pub name: String,
    /// True when `name` differs from the input, so callers can record the
    /// original as provenance.
    pub changed: bool,
}

/// Characters Windows forbids in a path component.
pub open spec fn is_reserved_char(c: char) -> bool {
    c == '<' || c == '>' || c == ':' || c == '"' || c == '/' || c == '\\' || c == '|' || c == '?'
        || c == '*'
}

/// Whether `c` is a control character: C0, DEL or C1.
pub open spec fn is_control(c: char) -> bool {
    (c as u32) < 0x20 || (0x7f <= (c as u32) && (c as u32) <= 0x9f)
}

/// The character `c` is written as.
pub open spec fn safe_char(c: char) -> char {
    if is_reserved_char(c) || is_control(c) {
        '_'
    } else {
        c
    }
}

/// `s` without trailing dots and spaces.
pub open spec fn trim_dot_space_end(s: Seq<char>) -> Seq<char>
    decreases s.len(),
{
    if s.len() > 0 && (s.last() == '.' || s.last() == ' ') {
        trim_dot_space_end(s.drop_last())
    } else {
        s
    }
}

/// The part of `s` before its first dot.
pub open spec fn stem(s: Seq<char>) -> Seq<char>
    decreases s.len(),
{
    if s.len() == 0 || s[0] == '.' {
        Seq::empty()
    } else {
        seq![s[0]] + stem(s.drop_first())
    }
}

/// The ASCII upper-case form of a scalar value.
pub open spec fn ascii_upper(v: u32) -> u32 {
    if 0x61 <= v <= 0x7A {
        (v - 32) as u32
    } else {
        v
    }
}

/// Whether `stem`, compared without regard to ASCII case, is a device name
/// Windows reserves: CON, PRN, AUX, NUL, COM1-COM9 or LPT1-LPT9.
pub open spec fn is_reserved_name(stem: Seq<char>) -> bool {
    let u = stem.map_values(|c: char| ascii_upper(c as u32));
    ||| u =~= seq![0x43u32, 0x4F, 0x4E]
    ||| u =~= seq![0x50u32, 0x52, 0x4E]
    ||| u =~= seq![0x41u32, 0x55, 0x58]
    ||| u =~= seq![0x4Eu32, 0x55, 0x4C]
    ||| (u.len() == 4 && ((u[0] == 0x43 && u[1] == 0x4F && u[2] == 0x4D) || (u[0] == 0x4C && u[1]
        == 0x50 && u[2] == 0x54)) && 0x31 <= u[3] <= 0x39)
}

/// The name written for a recovered component.
pub open spec fn spec_sanitize(input: Seq<char>) -> Seq<char> {
    let mapped = input.map_values(|c: char| safe_char(c));
    let t1 = trim_dot_space_end(mapped);
    let t2 = if t1.len() > MAX_COMPONENT {
        trim_dot_space_end(t1.take(MAX_COMPONENT as int))
    } else {
        t1
    };
    let t3 = if is_reserved_name(stem(t2)) {
        seq!['_'] + t2
    } else {
        t2
    };
    if t3.len() == 0 {
        seq!['u', 'n', 'n', 'a', 'm', 'e', 'd']
    } else {
        t3
    }
}

/// Length of `s[..n]` once trailing dots and spaces are removed.
fn trimmed_dot_space_len(s: &Vec<char>, n: usize) -> (k: usize)
    requires
        n <= s@.len(),
    ensures
        k <= n,
        trim_dot_space_end(s@.take(n as int)) == s@.take(k as int),
{
    let mut k = n;
    while k > 0 && (s[k - 1] == '.' || s[k - 1] == ' ')
        invariant
            k <= n <= s@.len(),
            trim_dot_space_end(s@.take(n as int)) == trim_dot_space_end(s@.take(k as int)),
        decreases k,
    {
        assert(s@.take(k as int).drop_last() == s@.take(k - 1));
        k = k - 1;
    }
    k
}

/// Length of the stem of `s`.
fn stem_len(s: &Vec<char>) -> (k: usize)
    ensures
        k <= s@.len(),
        stem(s@) == s@.take(k as int),
{
    let mut k: usize = 0;
    assert(s@.skip(0) == s@);
    assert(Seq::<char>::empty() + stem(s@) == stem(s@));
    while k < s.len() && s[k] != '.'
        invariant
            k <= s@.len(),
            stem(s@) == s@.take(k as int) + stem(s@.skip(k as int)),
        decreases s@.len() - k,
    {
        assert(s@.skip(k as int).drop_first() == s@.skip(k + 1));
        assert(s@.take(k + 1) == s@.take(k as int) + seq![s@[k as int]]);
        k = k + 1;
    }
    assert(stem(s@.skip(k as int)) == Seq::<char>::empty());
    assert(s@.take(k as int) + Seq::<char>::empty() == s@.take(k as int));
    k
}

/// The ASCII upper-case form of `c`'s scalar value.
fn upper(c: char) -> (r: u32)
    ensures
        r == ascii_upper(c as u32),
{
    let v = c as u32;
    if 0x61 <= v && v <= 0x7A {
        v - 32
    } else {
        v
    }
}

/// Executable form of [`is_reserved_name`] over `s[..k]`.
fn reserved_stem(s: &Vec<char>, k: usize) -> (r: bool)
    requires
        k <= s@.len(),
    ensures
        r == is_reserved_name(s@.take(k as int)),
{
    let ghost u = s@.take(k as int).map_values(|c: char| ascii_upper(c as u32));
    if k == 3 {
        let a = upper(s[0]);
        let b = upper(s[1]);
        let c = upper(s[2]);
        assert(u[0] == a && u[1] == b && u[2] == c);
        let r = (a == 0x43 && b == 0x4F && c == 0x4E) || (a == 0x50 && b == 0x52 && c == 0x4E) || (
        a == 0x41 && b == 0x55 && c == 0x58) || (a == 0x4E && b == 0x55 && c == 0x4C);
        proof {
            if !r {
                assert(!(u =~= seq![0x43u32, 0x4F, 0x4E]) || a == 0x43 && b == 0x4F && c == 0x4E);
            }
        }
        r
    } else if k == 4 {
        let a = upper(s[0]);
        let b = upper(s[1]);
        let c = upper(s[2]);
        let d = upper(s[3]);
        assert(u[0] == a && u[1] == b && u[2] == c && u[3] == d);
        ((a == 0x43 && b == 0x4F && c == 0x4D) || (a == 0x4C && b == 0x50 && c == 0x54)) && 0x31
            <= d && d <= 0x39
    } else {
        false
    }
}

/// The characters of `chars` with reserved and control characters replaced.
fn map_safe(chars: &Vec<char>) -> (out: Vec<char>)
    ensures
        out@ == chars@.map_values(|c: char| safe_char(c)),
{
    let mut out: Vec<char> = Vec::new();
    let mut i: usize = 0;
    while i < chars.len()
        invariant
            i <= chars@.len(),
            out@ == chars@.take(i as int).map_values(|c: char| safe_char(c)),
        decreases chars@.len() - i,
    {
        // Control characters and path separators are replaced, not dropped, so
        // distinct names cannot silently collapse onto each other.
        let ch = chars[i];
        let v = ch as u32;
        let reserved = ch == '<' || ch == '>' || ch == ':' || ch == '"' || ch == '/' || ch == '\\'
            || ch == '|' || ch == '?' || ch == '*';
        let shown = if reserved || v < 0x20 || (0x7f <= v && v <= 0x9f) {
            '_'
        } else {
            ch
        };
        out.push(shown);
        assert(chars@.take(i + 1).map_values(|c: char| safe_char(c)) =~= chars@.take(i as int).map_values(
            |c: char| safe_char(c),
        ).push(safe_char(ch)));
        i = i + 1;
    }
    assert(chars@.take(chars@.len() as int) == chars@);
    out
}

/// The sanitised form of a character sequence.
fn sanitize_chars(chars: &Vec<char>) -> (name: Vec<char>)
    ensures
        name@ == spec_sanitize(chars@),
{
    let out = map_safe(chars);
    // Windows silently strips trailing dots and spaces, which would otherwise
    // make the created name differ from the requested one.
    let n1 = trimmed_dot_space_len(&out, out.len());
    assert(out@.take(out@.len() as int) == out@);
    let mut n = n1;
    // Truncate on a character boundary, not a byte index.
    if n1 > MAX_COMPONENT {
        n = trimmed_dot_space_len(&out, MAX_COMPONENT);
        assert(out@.take(n1 as int).take(MAX_COMPONENT as int) == out@.take(MAX_COMPONENT as int));
    }
    let mut name = crate::bytes::copy_range(out.as_slice(), 0, n);
    assert(name@ == out@.take(n as int));
    // A reserved device name is unusable even with an extension ("NUL.txt").
    let k = stem_len(&name);
    if reserved_stem(&name, k) {
        name.insert(0, '_');
        assert(name@ =~= seq!['_'] + out@.take(n as int));
    }
    if name.len() == 0 {
        name.push('u');
        name.push('n');
        name.push('n');
        name.push('a');
        name.push('m');
        name.push('e');
        name.push('d');
        assert(name@ =~= seq!['u', 'n', 'n', 'a', 'm', 'e', 'd']);
    }
    name
}

/// Makes a single recovered path component safe for Windows.
///
/// The result is never empty, never a reserved device name, contains no
/// reserved or control characters, and has no trailing dot or space.
pub fn sanitize_component(input: &str) -> (r: SanitizedName)
    ensures
        r.name@ == spec_sanitize(input@),
        r.changed == (r.name@ != input@),
        r.name@.len() > 0,
        forall|i: int|
            0 <= i < r.name@.len() ==> !is_reserved_char(#[trigger] r.name@[i]) && !is_control(
                r.name@[i],
            ),
        r.name@.last() != '.' && r.name@.last() != ' ',
        r.name@.len() <= MAX_COMPONENT + 1,
        !is_reserved_name(stem(r.name@)),
{
    let chars = chars_of(input);
    let name = sanitize_chars(&chars);
    proof {
        lemma_sanitize_laws(input@);
    }
    let s = string_from_chars(&name);
    let changed = !str_equal(&name, input);
    SanitizedName { name: s, changed }
}

/// Whether a character sequence spells out `s` exactly.
fn str_equal(a: &Vec<char>, s: &str) -> (r: bool)
    ensures
        r == (a@ == s@),
{
    let b = chars_of(s);
    if a.len() != b.len() {
        return false;
    }
    let mut i: usize = 0;
    while i < a.len()
        invariant
            i <= a@.len() == b@.len(),
            b@ == s@,
            forall|j: int| 0 <= j < i ==> a@[j] == b@[j],
        decreases a@.len() - i,
    {
        if a[i] != b[i] {
            return false;
        }
        i = i + 1;
    }
    assert(a@ =~= b@);
    true
}

/// Trimming dots and spaces keeps a prefix that does not end in one.
pub proof fn lemma_trim_dot_space(s: Seq<char>)
    ensures
        exists|k: int| 0 <= k <= s.len() && #[trigger] trim_dot_space_end(s) == s.take(k),
        trim_dot_space_end(s).len() > 0 ==> trim_dot_space_end(s).last() != '.'
            && trim_dot_space_end(s).last() != ' ',
        trim_dot_space_end(s).len() <= s.len(),
    decreases s.len(),
{
    if s.len() > 0 && (s.last() == '.' || s.last() == ' ') {
        lemma_trim_dot_space(s.drop_last());
        let k = choose|k: int| 0 <= k <= s.drop_last().len() && #[trigger] trim_dot_space_end(s.drop_last()) == s.drop_last().take(k);
        assert(s.drop_last().take(k) == s.take(k));
    } else {
        assert(s.take(s.len() as int) == s);
    }
}

/// The stem of a sequence is a prefix of it with no dot.
pub proof fn lemma_stem_prefix(s: Seq<char>)
    ensures
        stem(s).len() <= s.len(),
        forall|i: int| 0 <= i < stem(s).len() ==> #[trigger] stem(s)[i] == s[i],
    decreases s.len(),
{
    if s.len() > 0 && s[0] != '.' {
        lemma_stem_prefix(s.drop_first());
    }
}

/// What every sanitised name satisfies, whatever the input: it is non-empty,
/// free of reserved and control characters, does not end in a dot or space,
/// is at most one character over the component limit, and its stem is not a
/// reserved device name.
pub proof fn lemma_sanitize_laws(input: Seq<char>)
    ensures
        spec_sanitize(input).len() > 0,
        forall|i: int|
            0 <= i < spec_sanitize(input).len() ==> !is_reserved_char(#[trigger] spec_sanitize(input)[i])
                && !is_control(spec_sanitize(input)[i]),
        spec_sanitize(input).last() != '.' && spec_sanitize(input).last() != ' ',
        spec_sanitize(input).len() <= MAX_COMPONENT + 1,
        !is_reserved_name(stem(spec_sanitize(input))),
{
    let mapped = input.map_values(|c: char| safe_char(c));
    let t1 = trim_dot_space_end(mapped);
    lemma_trim_dot_space(mapped);
    let t2 = if t1.len() > MAX_COMPONENT {
        trim_dot_space_end(t1.take(MAX_COMPONENT as int))
    } else {
        t1
    };
    lemma_trim_dot_space(t1.take(MAX_COMPONENT as int));
    let k1 = choose|k: int| 0 <= k <= mapped.len() && #[trigger] trim_dot_space_end(mapped) == mapped.take(k);
    assert forall|i: int| 0 <= i < t2.len() implies !is_reserved_char(#[trigger] t2[i]) && !is_control(t2[i]) by {
        if t1.len() > MAX_COMPONENT {
            let k2 = choose|k: int| 0 <= k <= t1.take(MAX_COMPONENT as int).len() && #[trigger] trim_dot_space_end(t1.take(MAX_COMPONENT as int)) == t1.take(MAX_COMPONENT as int).take(k);
            assert(t2[i] == mapped[i]);
        } else {
            assert(t2[i] == mapped[i]);
        }
    }
    let out = spec_sanitize(input);
    let unnamed = seq!['u', 'n', 'n', 'a', 'm', 'e', 'd'];
    if is_reserved_name(stem(t2)) {
        let t3 = seq!['_'] + t2;
        assert(stem(t3) == seq!['_'] + stem(t2)) by {
            assert(t3.drop_first() == t2);
        }
        let u = stem(t3).map_values(|c: char| ascii_upper(c as u32));
        assert(u[0] == 0x5F);
        assert(t3.last() == t2.last() || t2.len() == 0);
    } else if t2.len() == 0 {
        assert(out == unnamed);
        assert(stem(unnamed) =~= unnamed) by {
            reveal_with_fuel(stem, 8);
        }
    }
}

} // verus!
