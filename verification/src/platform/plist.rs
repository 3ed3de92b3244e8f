//! Reading the few property-list values a device listing needs.
//!
//! The text comes from a subprocess and is untrusted: every lookup tolerates
//! missing keys and malformed markup by yielding nothing.

use vstd::prelude::*;
use crate::text::{chars_of, string_from_chars, string_of};
use crate::unicode::{trim_ws_end, trim_ws_start, trimmed_end_len, trimmed_start_index};

verus! {

/// Whether `n` occurs in `h` at index `i`.
pub open spec fn occurs(h: Seq<char>, n: Seq<char>, i: int) -> bool {
    0 <= i && i + n.len() <= h.len() && h.subrange(i, i + n.len()) == n
}

/// The first index at or after `from` where `n` occurs in `h`.
pub open spec fn first_from(h: Seq<char>, n: Seq<char>, from: int) -> Option<int>
    decreases h.len() + 1 - from,
{
    if from < 0 || from + n.len() > h.len() {
        None
    } else if occurs(h, n, from) {
        Some(from)
    } else {
        first_from(h, n, from + 1)
    }
}

/// What [`first_from`] finds: the least occurrence at or after `from`.
pub proof fn lemma_first_from(h: Seq<char>, n: Seq<char>, from: int)
    requires
        0 <= from,
    ensures
        match first_from(h, n, from) {
            Some(p) => from <= p && occurs(h, n, p) && forall|q: int| from <= q < p ==> !occurs(h, n, q),
            None => forall|q: int| from <= q ==> !occurs(h, n, q),
        },
    decreases h.len() + 1 - from,
{
    if from < 0 || from + n.len() > h.len() {
    } else if occurs(h, n, from) {
    } else {
        lemma_first_from(h, n, from + 1);
    }
}

/// Executable form of [`first_from`].
pub fn find_chars(h: &Vec<char>, n: &Vec<char>, from: usize) -> (r: Option<usize>)
    ensures
        r matches Some(p) ==> first_from(h@, n@, from as int) == Some(p as int) && from <= p && p
            + n.len() <= h.len(),
        r is None ==> first_from(h@, n@, from as int) is None,
{
    proof {
        lemma_first_from(h@, n@, from as int);
    }
    if n.len() > h.len() {
        assert(first_from(h@, n@, from as int) is None);
        return None;
    }
    if n.len() == 0 {
        if from <= h.len() {
            assert(occurs(h@, n@, from as int)) by {
                assert(h@.subrange(from as int, from as int) =~= n@);
            }
            return Some(from);
        }
        return None;
    }
    let last = h.len() - n.len();
    let mut p = from;
    while p <= last
        invariant
            from <= p,
            last == h@.len() - n@.len(),
            last < usize::MAX,
            first_from(h@, n@, from as int) == first_from(h@, n@, p as int),
        decreases last + 1 - p,
    {
        let ok = crate::bytes::chars_equal_at(h.as_slice(), p, n.as_slice());
        if ok {
            return Some(p);
        }
        p = p + 1;
    }
    None
}

/// The characters of a literal.
fn lit(s: &str) -> (v: Vec<char>)
    ensures
        v@ == s@,
{
    chars_of(s)
}

/// `<key>KEY</key>`.
pub open spec fn key_tag(key: Seq<char>) -> Seq<char> {
    seq!['<', 'k', 'e', 'y', '>'] + key + seq!['<', '/', 'k', 'e', 'y', '>']
}

fn key_needle(key: &str) -> (v: Vec<char>)
    ensures
        v@ == key_tag(key@),
{
    let mut v = lit("<key>");
    let k = lit(key);
    let close = lit("</key>");
    proof {
        reveal_strlit("<key>");
        reveal_strlit("</key>");
    }
    let mut i: usize = 0;
    let ghost start = v@;
    while i < k.len()
        invariant
            i <= k@.len(),
            v@ == start + k@.take(i as int),
        decreases k@.len() - i,
    {
        v.push(k[i]);
        assert(k@.take(i + 1) == k@.take(i as int).push(k@[i as int]));
        i = i + 1;
    }
    assert(k@.take(i as int) == k@);
    let ghost mid = v@;
    let mut j: usize = 0;
    while j < close.len()
        invariant
            j <= close@.len(),
            v@ == mid + close@.take(j as int),
        decreases close@.len() - j,
    {
        v.push(close[j]);
        assert(close@.take(j + 1) == close@.take(j as int).push(close@[j as int]));
        j = j + 1;
    }
    assert(close@.take(j as int) == close@);
    assert(v@ =~= key_tag(key@));
    v
}

/// Where the value of `key` begins: just after its first `<key>` element.
pub open spec fn value_start(plist: Seq<char>, key: Seq<char>) -> Option<int> {
    match first_from(plist, key_tag(key), 0) {
        Some(p) => Some(p + key_tag(key).len()),
        None => None,
    }
}

/// The text between the first `open` and the first `close` tag after
/// `start`, when the close does not come before the open's end.
pub open spec fn element_text(plist: Seq<char>, start: int, open: Seq<char>, close: Seq<char>) -> Option<Seq<char>> {
    match (first_from(plist, open, start), first_from(plist, close, start)) {
        (Some(o), Some(e)) => if e < o + open.len() {
            None
        } else {
            Some(plist.subrange(o + open.len(), e))
        },
        _ => None,
    }
}

/// The decimal value of a digit sequence.
pub open spec fn digits_value(s: Seq<char>) -> nat
    decreases s.len(),
{
    if s.len() == 0 {
        0
    } else {
        digits_value(s.drop_last()) * 10 + ((s.last() as u32) - 0x30) as nat
    }
}

/// Whether every character of `s` is an ASCII digit.
pub open spec fn all_digits(s: Seq<char>) -> bool {
    forall|i: int| 0 <= i < s.len() ==> '0' <= #[trigger] s[i] <= '9'
}

/// What `u64::from_str` makes of `s`: an optional `+`, then one or more
/// digits whose value fits.
pub open spec fn parse_u64(s: Seq<char>) -> Option<u64> {
    let body = if s.len() > 0 && s[0] == '+' {
        s.drop_first()
    } else {
        s
    };
    if body.len() == 0 || !all_digits(body) || digits_value(body) > u64::MAX {
        None
    } else {
        Some(digits_value(body) as u64)
    }
}

/// Parses an unsigned decimal integer as `u64::from_str` does.
pub fn parse_decimal(s: &Vec<char>) -> (r: Option<u64>)
    ensures
        r == parse_u64(s@),
{
    let start: usize = if s.len() > 0 && s[0] == '+' {
        1
    } else {
        0
    };
    let ghost body = if s@.len() > 0 && s@[0] == '+' {
        s@.drop_first()
    } else {
        s@
    };
    assert(body == s@.skip(start as int));
    if start >= s.len() {
        return None;
    }
    if !all_digits_exec(s, start) {
        assert(s@.subrange(start as int, s@.len() as int) == body);
        return None;
    }
    assert(s@.subrange(start as int, s@.len() as int) == body);
    let mut value: u64 = 0;
    let mut i = start;
    while i < s.len()
        invariant
            start <= i <= s@.len(),
            body == s@.skip(start as int),
            all_digits(body),
            body == s@.subrange(start as int, s@.len() as int),
            body == if s@.len() > 0 && s@[0] == '+' {
                s@.drop_first()
            } else {
                s@
            },
            all_digits(s@.subrange(start as int, i as int)),
            value == digits_value(s@.subrange(start as int, i as int)),
        decreases s@.len() - i,
    {
        let c = s[i];
        assert(s@.subrange(start as int, i + 1).drop_last() == s@.subrange(start as int, i as int));
        if c < '0' || c > '9' {
            assert(!all_digits(body)) by {
                assert(body[i - start] == c);
            }
            return None;
        }
        let d = (c as u32 - 0x30) as u64;
        if value > (u64::MAX - d) / 10 {
            proof {
                assert(value * 10 + d > u64::MAX) by (nonlinear_arith)
                    requires
                        value > (u64::MAX - d) / 10,
                        d <= 9,
                ;
                assert(digits_value(s@.subrange(start as int, i + 1)) == value * 10 + d);
                lemma_digits_value_grows(body, i + 1 - start);
                assert(body.take(i + 1 - start) == s@.subrange(start as int, i + 1));
                assert(s@.subrange(start as int, i + 1).last() == c);
                assert(digits_value(body) > u64::MAX);
                assert(parse_u64(s@) is None);
            }
            return None;
        }
        value = value * 10 + d;
        i = i + 1;
    }
    assert(s@.subrange(start as int, s@.len() as int) == body);
    Some(value)
}

/// Whether `s[from..]` is all ASCII digits.
fn all_digits_exec(s: &Vec<char>, from: usize) -> (r: bool)
    requires
        from <= s@.len(),
    ensures
        r == all_digits(s@.subrange(from as int, s@.len() as int)),
{
    let mut k = from;
    while k < s.len()
        invariant
            from <= k <= s@.len(),
            all_digits(s@.subrange(from as int, k as int)),
        decreases s@.len() - k,
    {
        if s[k] < '0' || s[k] > '9' {
            assert(s@.subrange(from as int, s@.len() as int)[k - from] == s@[k as int]);
            return false;
        }
        k = k + 1;
    }
    true
}

/// A longer all-digit prefix never has a smaller value.
pub proof fn lemma_digits_value_grows(s: Seq<char>, k: int)
    requires
        0 <= k <= s.len(),
        all_digits(s),
    ensures
        digits_value(s.take(k)) <= digits_value(s),
    decreases s.len() - k,
{
    if k < s.len() {
        lemma_digits_value_grows(s, k + 1);
        assert(s.take(k + 1).drop_last() == s.take(k));
        assert('0' <= s[k] <= '9');
    } else {
        assert(s.take(k) == s);
    }
}

/// `<integer>`, `</integer>`, `<string>`, `</string>`, `<array>`, `</array>`,
/// `<true/>` and `<false/>`.
pub open spec fn tag(name: Seq<char>, closing: bool) -> Seq<char> {
    if closing {
        seq!['<', '/'] + name + seq!['>']
    } else {
        seq!['<'] + name + seq!['>']
    }
}

/// The characters of `s` from `from` on.
fn tail_from(s: &Vec<char>, from: usize) -> (t: Vec<char>)
    requires
        from <= s@.len(),
    ensures
        t@ == s@.subrange(from as int, s@.len() as int),
{
    crate::bytes::copy_range(s.as_slice(), from, s.len())
}

/// The text of the first `open`..`close` element after `start`.
fn element(plist: &Vec<char>, start: usize, open: &Vec<char>, close: &Vec<char>) -> (r: Option<Vec<char>>)
    requires
        start <= plist@.len(),
    ensures
        match r {
            Some(t) => element_text(plist@, start as int, open@, close@) == Some(t@),
            None => element_text(plist@, start as int, open@, close@) is None,
        },
{
    let o = match find_chars(plist, open, start) {
        Some(o) => o,
        None => return None,
    };
    let e = match find_chars(plist, close, start) {
        Some(e) => e,
        None => return None,
    };
    if e < o + open.len() {
        return None;
    }
    Some(crate::bytes::copy_range(plist.as_slice(), o + open.len(), e))
}

/// Where the value of `key` begins.
fn value_start_exec(plist: &Vec<char>, key: &str) -> (r: Option<usize>)
    ensures
        match r {
            Some(p) => value_start(plist@, key@) == Some(p as int) && p <= plist@.len(),
            None => value_start(plist@, key@) is None,
        },
{
    let needle = key_needle(key);
    match find_chars(plist, &needle, 0) {
        Some(p) => Some(p + needle.len()),
        None => None,
    }
}

/// The integer value of `key`, as the plist's `<integer>` element after it
/// spells it.
pub open spec fn spec_plist_integer(plist: Seq<char>, key: Seq<char>) -> Option<u64> {
    match value_start(plist, key) {
        None => None,
        Some(st) => match element_text(
            plist,
            st,
            tag(seq!['i', 'n', 't', 'e', 'g', 'e', 'r'], false),
            tag(seq!['i', 'n', 't', 'e', 'g', 'e', 'r'], true),
        ) {
            None => None,
            Some(t) => parse_u64(trim_ws_start(trim_ws_end(t))),
        },
    }
}

/// Reads an integer-valued plist key.
pub fn plist_integer(plist: &str, key: &str) -> (r: Option<u64>)
    ensures
        r == spec_plist_integer(plist@, key@),
{
    let p = chars_of(plist);
    let st = match value_start_exec(&p, key) {
        Some(st) => st,
        None => return None,
    };
    let open = lit("<integer>");
    let close = lit("</integer>");
    proof {
        reveal_strlit("<integer>");
        reveal_strlit("</integer>");
        assert(open@ =~= tag(seq!['i', 'n', 't', 'e', 'g', 'e', 'r'], false));
        assert(close@ =~= tag(seq!['i', 'n', 't', 'e', 'g', 'e', 'r'], true));
    }
    let text = match element(&p, st, &open, &close) {
        Some(t) => t,
        None => return None,
    };
    let end = trimmed_end_len(&text);
    let begin = trimmed_start_index(&text, end);
    let trimmed = crate::bytes::copy_range(text.as_slice(), begin, end);
    parse_decimal(&trimmed)
}

/// The string value of `key`: the text of the `<string>` element after it.
pub open spec fn spec_plist_string(plist: Seq<char>, key: Seq<char>) -> Option<Seq<char>> {
    match value_start(plist, key) {
        None => None,
        Some(st) => element_text(
            plist,
            st,
            tag(seq!['s', 't', 'r', 'i', 'n', 'g'], false),
            tag(seq!['s', 't', 'r', 'i', 'n', 'g'], true),
        ),
    }
}

/// Reads a string-valued plist key.
pub fn plist_string(plist: &str, key: &str) -> (r: Option<String>)
    ensures
        match r {
            Some(s) => spec_plist_string(plist@, key@) == Some(s@),
            None => spec_plist_string(plist@, key@) is None,
        },
{
    let p = chars_of(plist);
    let st = match value_start_exec(&p, key) {
        Some(st) => st,
        None => return None,
    };
    let open = lit("<string>");
    let close = lit("</string>");
    proof {
        reveal_strlit("<string>");
        reveal_strlit("</string>");
        assert(open@ =~= tag(seq!['s', 't', 'r', 'i', 'n', 'g'], false));
        assert(close@ =~= tag(seq!['s', 't', 'r', 'i', 'n', 'g'], true));
    }
    match element(&p, st, &open, &close) {
        Some(t) => Some(string_from_chars(&t)),
        None => None,
    }
}

/// `<true/>`.
pub open spec fn true_tag() -> Seq<char> {
    seq!['<', 't', 'r', 'u', 'e', '/', '>']
}

/// `<false/>`.
pub open spec fn false_tag() -> Seq<char> {
    seq!['<', 'f', 'a', 'l', 's', 'e', '/', '>']
}

/// The boolean value of `key`: the empty element right after it, past any
/// whitespace.
pub open spec fn spec_plist_bool(plist: Seq<char>, key: Seq<char>) -> Option<bool> {
    match value_start(plist, key) {
        None => None,
        Some(st) => {
            let rest = trim_ws_start(plist.subrange(st, plist.len() as int));
            if occurs(rest, true_tag(), 0) {
                Some(true)
            } else if occurs(rest, false_tag(), 0) {
                Some(false)
            } else {
                None
            }
        },
    }
}

/// Reads a boolean-valued plist key, which plists encode as empty elements.
pub fn plist_bool(plist: &str, key: &str) -> (r: Option<bool>)
    ensures
        r == spec_plist_bool(plist@, key@),
{
    let p = chars_of(plist);
    let st = match value_start_exec(&p, key) {
        Some(st) => st,
        None => return None,
    };
    let after = tail_from(&p, st);
    let begin = trimmed_start_index(&after, after.len());
    assert(after@.take(after@.len() as int) == after@);
    let rest = tail_from(&after, begin);
    let t = lit("<true/>");
    let f = lit("<false/>");
    proof {
        reveal_strlit("<true/>");
        reveal_strlit("<false/>");
        assert(t@ =~= true_tag());
        assert(f@ =~= false_tag());
    }
    if t.len() <= rest.len() && crate::bytes::chars_equal_at(rest.as_slice(), 0, t.as_slice()) {
        Some(true)
    } else if f.len() <= rest.len() && crate::bytes::chars_equal_at(rest.as_slice(), 0, f.as_slice()) {
        Some(false)
    } else {
        None
    }
}

/// The texts of the `<string>` elements in `seg`, as splitting `seg` at each
/// `<string>` and cutting each piece at its `</string>` gives them; a piece
/// with no closing tag contributes nothing.
pub open spec fn array_items(seg: Seq<char>) -> Seq<Seq<char>>
    decreases seg.len(),
{
    let open = tag(seq!['s', 't', 'r', 'i', 'n', 'g'], false);
    let close = tag(seq!['s', 't', 'r', 'i', 'n', 'g'], true);
    match first_from(seg, open, 0) {
        None => Seq::empty(),
        Some(p) => {
            proof {
                lemma_first_from(seg, open, 0);
            }
            let after = seg.subrange(p + open.len(), seg.len() as int);
            let piece_end = match first_from(after, open, 0) {
                Some(q) => q,
                None => after.len() as int,
            };
            let piece = after.take(piece_end);
            let rest = array_items(after);
            match first_from(piece, close, 0) {
                Some(e) => seq![piece.take(e)] + rest,
                None => rest,
            }
        },
    }
}

/// The string values of the `<array>` following `key`.
pub open spec fn spec_plist_string_array(plist: Seq<char>, key: Seq<char>) -> Seq<Seq<char>> {
    match value_start(plist, key) {
        None => Seq::empty(),
        Some(st) => {
            let arr = tag(seq!['a', 'r', 'r', 'a', 'y'], false);
            let arr_close = tag(seq!['a', 'r', 'r', 'a', 'y'], true);
            match (first_from(plist, arr, st), first_from(plist, arr_close, st)) {
                (Some(o), Some(c)) => if c < o {
                    Seq::empty()
                } else {
                    array_items(plist.subrange(o, c))
                },
                _ => Seq::empty(),
            }
        },
    }
}

/// Collects [`array_items`] of `seg`.
fn collect_items(seg: &Vec<char>, open: &Vec<char>, close: &Vec<char>) -> (out: Vec<Vec<char>>)
    requires
        open@ == tag(seq!['s', 't', 'r', 'i', 'n', 'g'], false),
        close@ == tag(seq!['s', 't', 'r', 'i', 'n', 'g'], true),
    ensures
        out@.map_values(|v: Vec<char>| v@) == array_items(seg@),
    decreases seg@.len(),
{
    match find_chars(seg, open, 0) {
        None => Vec::new(),
        Some(p) => {
            let after = tail_from(seg, p + open.len());
            let piece_end = match find_chars(&after, open, 0) {
                Some(q) => q,
                None => after.len(),
            };
            let piece = crate::bytes::copy_range(after.as_slice(), 0, piece_end);
            let rest = collect_items(&after, open, close);
            match find_chars(&piece, close, 0) {
                Some(e) => {
                    let item = crate::bytes::copy_range(piece.as_slice(), 0, e);
                    let mut out: Vec<Vec<char>> = Vec::new();
                    out.push(item);
                    let mut k: usize = 0;
                    while k < rest.len()
                        invariant
                            k <= rest@.len(),
                            out@.len() == k + 1,
                            out@[0]@ == piece@.take(e as int),
                            forall|j: int| 0 <= j < k ==> #[trigger] out@[j + 1]@ == rest@[j]@,
                        decreases rest@.len() - k,
                    {
                        out.push(rest[k].clone());
                        k = k + 1;
                    }
                    proof {
                        let m = |v: Vec<char>| v@;
                        let want = seq![piece@.take(e as int)] + rest@.map_values(m);
                        assert forall|i: int| 0 <= i < out@.len() implies out@.map_values(m)[i] == want[i] by {
                            if i > 0 {
                                assert(out@[(i - 1) + 1]@ == rest@[i - 1]@);
                            }
                        }
                        assert(out@.map_values(m) =~= want);
                    }
                    out
                },
                None => rest,
            }
        },
    }
}

/// Extracts the string values of a plist `<array>` following `key`.
pub fn plist_string_array(plist: &str, key: &str) -> (r: Vec<String>)
    ensures
        r@.map_values(|s: String| s@) == spec_plist_string_array(plist@, key@),
{
    let p = chars_of(plist);
    let st = match value_start_exec(&p, key) {
        Some(st) => st,
        None => return Vec::new(),
    };
    let arr = lit("<array>");
    let arr_close = lit("</array>");
    let open = lit("<string>");
    let close = lit("</string>");
    proof {
        reveal_strlit("<array>");
        reveal_strlit("</array>");
        reveal_strlit("<string>");
        reveal_strlit("</string>");
        assert(arr@ =~= tag(seq!['a', 'r', 'r', 'a', 'y'], false));
        assert(arr_close@ =~= tag(seq!['a', 'r', 'r', 'a', 'y'], true));
        assert(open@ =~= tag(seq!['s', 't', 'r', 'i', 'n', 'g'], false));
        assert(close@ =~= tag(seq!['s', 't', 'r', 'i', 'n', 'g'], true));
    }
    let o = match find_chars(&p, &arr, st) {
        Some(o) => o,
        None => return Vec::new(),
    };
    let c = match find_chars(&p, &arr_close, st) {
        Some(c) => c,
        None => return Vec::new(),
    };
    if c < o {
        return Vec::new();
    }
    let seg = crate::bytes::copy_range(p.as_slice(), o, c);
    let items = collect_items(&seg, &open, &close);
    let mut out: Vec<String> = Vec::new();
    let mut k: usize = 0;
    while k < items.len()
        invariant
            k <= items@.len(),
            out@.len() == k,
            forall|j: int| 0 <= j < k ==> #[trigger] out@[j]@ == items@[j]@,
        decreases items@.len() - k,
    {
        out.push(string_from_chars(&items[k]));
        k = k + 1;
    }
    proof {
        assert(out@.map_values(|s: String| s@) =~= items@.map_values(|v: Vec<char>| v@));
    }
    out
}

} // verus!
