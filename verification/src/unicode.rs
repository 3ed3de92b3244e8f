//! UTF-16 decoding and whitespace trimming over character sequences.

use vstd::prelude::*;
use crate::text::{char_from_u32, is_scalar_value};

verus! {

/// The scalar values of a character sequence.
pub open spec fn scalars(s: Seq<char>) -> Seq<u32> {
    s.map_values(|c: char| c as u32)
}

/// Whether `u` is a UTF-16 high (leading) surrogate.
pub open spec fn is_high_surrogate(u: u16) -> bool {
    0xD800 <= u <= 0xDBFF
}

/// Whether `u` is a UTF-16 low (trailing) surrogate.
pub open spec fn is_low_surrogate(u: u16) -> bool {
    0xDC00 <= u <= 0xDFFF
}

/// The scalar values encoded by UTF-16 `units`, or `None` where a surrogate
/// is unpaired.
pub open spec fn utf16_scalars(units: Seq<u16>) -> Option<Seq<u32>>
    decreases units.len(),
{
    if units.len() == 0 {
        Some(Seq::empty())
    } else if !is_high_surrogate(units[0]) && !is_low_surrogate(units[0]) {
        match utf16_scalars(units.drop_first()) {
            Some(rest) => Some(seq![units[0] as u32] + rest),
            None => None,
        }
    } else if is_high_surrogate(units[0]) && units.len() >= 2 && is_low_surrogate(units[1]) {
        match utf16_scalars(units.subrange(2, units.len() as int)) {
            Some(rest) => Some(
                seq![(0x10000 + (units[0] - 0xD800) * 1024 + (units[1] - 0xDC00)) as u32] + rest,
            ),
            None => None,
        }
    } else {
        None
    }
}

/// How many UTF-16 code units the scalar values `s` take: two for a value
/// beyond the basic plane, one otherwise.
pub open spec fn utf16_width(s: Seq<u32>) -> int
    decreases s.len(),
{
    if s.len() == 0 {
        0
    } else {
        (if s[0] >= 0x10000 {
            2int
        } else {
            1int
        }) + utf16_width(s.drop_first())
    }
}

/// Decoding UTF-16 keeps the count of code units: the scalar values decoded
/// from `units` take exactly `units.len()` units.
pub proof fn lemma_utf16_width(units: Seq<u16>)
    requires
        utf16_scalars(units) is Some,
    ensures
        utf16_width(utf16_scalars(units)->0) == units.len(),
    decreases units.len(),
{
    if units.len() > 0 {
        let s = utf16_scalars(units)->0;
        if !is_high_surrogate(units[0]) && !is_low_surrogate(units[0]) {
            lemma_utf16_width(units.drop_first());
            assert(s.drop_first() == utf16_scalars(units.drop_first())->0);
            assert(s[0] == units[0] as u32);
        } else {
            let rest = units.subrange(2, units.len() as int);
            lemma_utf16_width(rest);
            assert(s.drop_first() == utf16_scalars(rest)->0);
            assert(s[0] >= 0x10000);
        }
    }
}

/// The scalar values that the suffix of `units` from `i` decodes to.
pub open spec fn utf16_suffix(units: Seq<u16>, i: int) -> Option<Seq<u32>> {
    utf16_scalars(units.subrange(i, units.len() as int))
}

/// Decodes UTF-16, rejecting unpaired surrogates.
pub fn decode_utf16(units: &[u16]) -> (r: Option<Vec<char>>)
    ensures
        r matches Some(cs) ==> utf16_scalars(units@) == Some(scalars(cs@)),
        r is None <==> utf16_scalars(units@) is None,
{
    let mut out: Vec<char> = Vec::new();
    let mut i: usize = 0;
    let n = units.len();
    assert(units@.subrange(0, n as int) == units@);
    while i < n
        invariant
            i <= n == units@.len(),
            utf16_scalars(units@) == match utf16_suffix(units@, i as int) {
                Some(rest) => Some(scalars(out@) + rest),
                None => None::<Seq<u32>>,
            },
        decreases n - i,
    {
        let u = units[i];
        let ghost suffix = units@.subrange(i as int, n as int);
        assert(suffix[0] == u);
        if u < 0xD800 || u > 0xDFFF {
            let c = match char_from_u32(u as u32) {
                Some(c) => c,
                None => {
                    return None;
                },
            };
            assert(suffix.drop_first() == units@.subrange(i + 1, n as int));
            out.push(c);
            proof {
                assert(scalars(out@) == scalars(out@.drop_last()) + seq![u as u32]);
                match utf16_suffix(units@, i + 1) {
                    Some(rest) => {
                        assert(scalars(out@) + rest == scalars(out@.drop_last()) + (seq![u as u32]
                            + rest));
                    },
                    None => {},
                }
            }
            i = i + 1;
        } else if u <= 0xDBFF && i + 1 < n && units[i + 1] >= 0xDC00 && units[i + 1] <= 0xDFFF {
            let lo = units[i + 1];
            assert(suffix[1] == lo);
            let v: u32 = 0x10000 + ((u as u32) - 0xD800) * 1024 + ((lo as u32) - 0xDC00);
            let c = match char_from_u32(v) {
                Some(c) => c,
                None => {
                    return None;
                },
            };
            assert(suffix.subrange(2, suffix.len() as int) == units@.subrange(i + 2, n as int));
            out.push(c);
            proof {
                assert(scalars(out@) == scalars(out@.drop_last()) + seq![v]);
                match utf16_suffix(units@, i + 2) {
                    Some(rest) => {
                        assert(scalars(out@) + rest == scalars(out@.drop_last()) + (seq![v]
                            + rest));
                    },
                    None => {},
                }
            }
            i = i + 2;
        } else {
            return None;
        }
    }
    assert(units@.subrange(n as int, n as int) =~= Seq::<u16>::empty());
    assert(scalars(out@) + Seq::<u32>::empty() == scalars(out@));
    Some(out)
}

/// Whether `c` has the Unicode `White_Space` property, as `char::is_whitespace`
/// defines it.
pub open spec fn is_whitespace(c: char) -> bool {
    let v = c as u32;
    (0x09 <= v <= 0x0D) || v == 0x20 || v == 0x85 || v == 0xA0 || v == 0x1680 || (0x2000 <= v
        <= 0x200A) || v == 0x2028 || v == 0x2029 || v == 0x202F || v == 0x205F || v == 0x3000
}

/// Executable form of [`is_whitespace`].
pub fn char_is_whitespace(c: char) -> (r: bool)
    ensures
        r == is_whitespace(c),
{
    let v = c as u32;
    (0x09 <= v && v <= 0x0D) || v == 0x20 || v == 0x85 || v == 0xA0 || v == 0x1680 || (0x2000 <= v
        && v <= 0x200A) || v == 0x2028 || v == 0x2029 || v == 0x202F || v == 0x205F || v == 0x3000
}

/// `s` without its trailing whitespace.
pub open spec fn trim_ws_end(s: Seq<char>) -> Seq<char>
    decreases s.len(),
{
    if s.len() > 0 && is_whitespace(s.last()) {
        trim_ws_end(s.drop_last())
    } else {
        s
    }
}

/// `s` without its leading whitespace.
pub open spec fn trim_ws_start(s: Seq<char>) -> Seq<char>
    decreases s.len(),
{
    if s.len() > 0 && is_whitespace(s[0]) {
        trim_ws_start(s.drop_first())
    } else {
        s
    }
}

/// Length of `s` once trailing whitespace is removed.
pub fn trimmed_end_len(s: &Vec<char>) -> (n: usize)
    ensures
        n <= s@.len(),
        trim_ws_end(s@) == s@.take(n as int),
{
    let mut n = s.len();
    assert(s@.take(n as int) == s@);
    while n > 0 && char_is_whitespace(s[n - 1])
        invariant
            n <= s@.len(),
            trim_ws_end(s@) == trim_ws_end(s@.take(n as int)),
        decreases n,
    {
        assert(s@.take(n as int).drop_last() == s@.take(n - 1));
        n = n - 1;
    }
    n
}

/// Index of the first character of `s` that is not whitespace.
pub fn trimmed_start_index(s: &Vec<char>, end: usize) -> (k: usize)
    requires
        end <= s@.len(),
    ensures
        k <= end,
        trim_ws_start(s@.take(end as int)) == s@.subrange(k as int, end as int),
{
    let mut k: usize = 0;
    assert(s@.subrange(0, end as int) == s@.take(end as int));
    while k < end && char_is_whitespace(s[k])
        invariant
            k <= end <= s@.len(),
            trim_ws_start(s@.take(end as int)) == trim_ws_start(s@.subrange(k as int, end as int)),
        decreases end - k,
    {
        assert(s@.subrange(k as int, end as int).drop_first() == s@.subrange(k + 1, end as int));
        k = k + 1;
    }
    k
}

} // verus!
