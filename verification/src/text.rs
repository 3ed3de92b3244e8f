//! Character-level helpers shared by every name-handling routine.

use vstd::prelude::*;
use vstd::string::*;

verus! {

/// `String::push`, which appends one character to the end of a string.
#[verifier::external_body]
pub(crate) fn string_push(s: &mut String, c: char)
    ensures
        final(s)@ == old(s)@.push(c),
{
    s.push(c)
}

/// `char::from_u32`, which yields the character with the given scalar value,
/// or `None` where the value is a surrogate or beyond U+10FFFF.
#[verifier::external_body]
pub(crate) fn char_from_u32(v: u32) -> (r: Option<char>)
    ensures
        r matches Some(c) ==> c as u32 == v,
        r is None <==> !is_scalar_value(v as int),
{
    char::from_u32(v)
}

/// What `String::from_utf8` yields for `bytes`: the characters they encode,
/// or `None` where they are not well-formed UTF-8.
pub uninterp spec fn utf8_decoding(bytes: Seq<u8>) -> Option<Seq<char>>;

/// `String::from_utf8`, which decodes well-formed UTF-8 and refuses anything
/// else. ASCII bytes are well-formed and decode to the characters with the
/// same values.
#[verifier::external_body]
pub(crate) fn utf8_string(bytes: &[u8]) -> (r: Option<String>)
    ensures
        r is None <==> utf8_decoding(bytes@) is None,
        r matches Some(s) ==> utf8_decoding(bytes@) == Some(s@),
        r is Some || exists|i: int| 0 <= i < bytes@.len() && bytes@[i] >= 0x80,
        r matches Some(s) ==> ((forall|i: int| 0 <= i < bytes@.len() ==> bytes@[i] < 0x80) ==> s@
            == bytes@.map_values(|b: u8| b as char)),
{
    String::from_utf8(bytes.to_vec()).ok()
}

/// Whether `v` is a Unicode scalar value: not a surrogate and at most U+10FFFF.
pub open spec fn is_scalar_value(v: int) -> bool {
    (0 <= v < 0xD800) || (0xE000 <= v <= 0x10FFFF)
}

/// Collects the characters of a string slice.
pub fn chars_of(s: &str) -> (v: Vec<char>)
    ensures
        v@ == s@,
{
    let mut v: Vec<char> = Vec::new();
    for c in it: s.chars()
        invariant
            v@ == it.seq().take(it.index() as int),
    {
        v.push(c);
    }
    v
}

/// Builds a string from a sequence of characters.
pub fn string_from_chars(chars: &Vec<char>) -> (s: String)
    ensures
        s@ == chars@,
{
    let mut s = String::new();
    let mut i: usize = 0;
    while i < chars.len()
        invariant
            i <= chars.len(),
            s@ == chars@.take(i as int),
        decreases chars.len() - i,
    {
        string_push(&mut s, chars[i]);
        assert(chars@.take(i + 1) == chars@.take(i as int).push(chars@[i as int]));
        i = i + 1;
    }
    assert(chars@.take(chars.len() as int) == chars@);
    s
}

/// Builds a string from a literal.
pub fn string_of(s: &str) -> (r: String)
    ensures
        r@ == s@,
{
    String::from_str(s)
}

/// The ASCII digit for `d < 10`.
pub open spec fn digit_char(d: int) -> char {
    if d == 0 {
        '0'
    } else if d == 1 {
        '1'
    } else if d == 2 {
        '2'
    } else if d == 3 {
        '3'
    } else if d == 4 {
        '4'
    } else if d == 5 {
        '5'
    } else if d == 6 {
        '6'
    } else if d == 7 {
        '7'
    } else if d == 8 {
        '8'
    } else {
        '9'
    }
}

/// Executable form of [`digit_char`].
fn digit(d: u64) -> (c: char)
    ensures
        c == digit_char(d as int),
{
    if d == 0 {
        '0'
    } else if d == 1 {
        '1'
    } else if d == 2 {
        '2'
    } else if d == 3 {
        '3'
    } else if d == 4 {
        '4'
    } else if d == 5 {
        '5'
    } else if d == 6 {
        '6'
    } else if d == 7 {
        '7'
    } else if d == 8 {
        '8'
    } else {
        '9'
    }
}

/// The decimal digits of `v`, most significant first.
pub open spec fn decimal(v: nat) -> Seq<char>
    decreases v,
{
    if v < 10 {
        seq![digit_char(v as int)]
    } else {
        decimal(v / 10).push(digit_char((v % 10) as int))
    }
}

/// `s` left-padded with zeros to at least `width` characters.
pub open spec fn zero_padded(s: Seq<char>, width: nat) -> Seq<char> {
    if s.len() >= width {
        s
    } else {
        Seq::new((width - s.len()) as nat, |i: int| '0') + s
    }
}

/// The decimal digits of `v`, least significant first.
fn digits_reversed(v: u64) -> (digits: Vec<char>)
    ensures
        digits@.reverse() == decimal(v as nat),
        digits@.len() >= 1,
    decreases v,
{
    if v < 10 {
        let mut d: Vec<char> = Vec::new();
        d.push(digit(v));
        assert(d@.reverse() =~= seq![digit_char(v as int)]);
        d
    } else {
        let mut d: Vec<char> = Vec::new();
        d.push(digit(v % 10));
        let rest = digits_reversed(v / 10);
        let ghost first = d@;
        let mut k: usize = 0;
        while k < rest.len()
            invariant
                k <= rest@.len(),
                d@ == first + rest@.take(k as int),
            decreases rest@.len() - k,
        {
            d.push(rest[k]);
            assert(rest@.take(k + 1) == rest@.take(k as int).push(rest@[k as int]));
            k = k + 1;
        }
        proof {
            assert(rest@.take(k as int) == rest@);
            assert(d@ == seq![digit_char((v % 10) as int)] + rest@);
            assert(d@.reverse() =~= rest@.reverse().push(digit_char((v % 10) as int)));
        }
        d
    }
}

/// Appends `v` in decimal, zero-padded to `width` digits.
pub fn push_decimal(out: &mut String, v: u64, width: usize)
    ensures
        final(out)@ == old(out)@ + zero_padded(decimal(v as nat), width as nat),
{
    let digits = digits_reversed(v);
    let n = digits.len();
    let ghost start = out@;
    let mut k: usize = n;
    while k < width
        invariant
            n <= k,
            k <= width || k == n,
            out@ == start + Seq::new((k - n) as nat, |i: int| '0'),
        decreases width - k,
    {
        string_push(out, '0');
        assert(Seq::new((k + 1 - n) as nat, |i: int| '0') == Seq::new((k - n) as nat, |i: int| '0').push('0'));
        k = k + 1;
    }
    let ghost padded = out@;
    let mut j: usize = n;
    while j > 0
        invariant
            j <= n == digits@.len(),
            out@ == padded + digits@.reverse().take((n - j) as int),
        decreases j,
    {
        string_push(out, digits[j - 1]);
        assert(digits@.reverse().take((n - j + 1) as int) == digits@.reverse().take((n - j) as int).push(digits@[j - 1]));
        j = j - 1;
    }
    proof {
        assert(digits@.reverse().take(n as int) == digits@.reverse());
        if n >= width {
            assert(Seq::new((k - n) as nat, |i: int| '0') == Seq::<char>::empty());
            assert(start + Seq::<char>::empty() == start);
        }
    }
}

/// Appends the characters of `s`.
pub fn push_str(out: &mut String, s: &str)
    ensures
        final(out)@ == old(out)@ + s@,
{
    let chars = chars_of(s);
    let ghost start = out@;
    let mut i: usize = 0;
    while i < chars.len()
        invariant
            i <= chars@.len(),
            chars@ == s@,
            out@ == start + chars@.take(i as int),
        decreases chars@.len() - i,
    {
        string_push(out, chars[i]);
        assert(chars@.take(i + 1) == chars@.take(i as int).push(chars@[i as int]));
        i = i + 1;
    }
    assert(chars@.take(chars@.len() as int) == chars@);
}

/// Whether `a` sorts before `b` comparing characters from position `i` on,
/// by scalar value; a proper prefix sorts first. This is the order of
/// `String`'s `<`.
pub open spec fn text_less_from(a: Seq<char>, b: Seq<char>, i: int) -> bool
    decreases a.len() - i,
{
    if i < 0 || i >= b.len() {
        false
    } else if i >= a.len() {
        true
    } else if (a[i] as u32) < (b[i] as u32) {
        true
    } else if (a[i] as u32) > (b[i] as u32) {
        false
    } else {
        text_less_from(a, b, i + 1)
    }
}

/// Whether `a` sorts strictly before `b`.
pub open spec fn text_less(a: Seq<char>, b: Seq<char>) -> bool {
    text_less_from(a, b, 0)
}

/// The order is asymmetric and transitive.
pub proof fn lemma_text_less_order(a: Seq<char>, b: Seq<char>, c: Seq<char>, i: int)
    requires
        i >= 0,
    ensures
        text_less_from(a, b, i) ==> !text_less_from(b, a, i),
        text_less_from(a, b, i) && text_less_from(b, c, i) ==> text_less_from(a, c, i),
    decreases a.len() - i,
{
    if i < a.len() && i < b.len() && (a[i] as u32) == (b[i] as u32) {
        lemma_text_less_order(a, b, c, i + 1);
    }
}

/// Compares two character sequences in string order.
pub fn chars_less(a: &Vec<char>, b: &Vec<char>) -> (r: bool)
    ensures
        r == text_less(a@, b@),
{
    let mut i: usize = 0;
    while i < a.len() && i < b.len() && (a[i] as u32) == (b[i] as u32)
        invariant
            i <= a@.len(),
            i <= b@.len(),
            text_less(a@, b@) == text_less_from(a@, b@, i as int),
        decreases a@.len() - i,
    {
        i = i + 1;
    }
    if i >= b.len() {
        false
    } else if i >= a.len() {
        true
    } else {
        (a[i] as u32) < (b[i] as u32)
    }
}

} // verus!
