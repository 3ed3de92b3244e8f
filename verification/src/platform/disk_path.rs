//! Canonical raw-device paths for whole disks and their partitions.

use vstd::prelude::*;
use crate::platform::plist::all_digits;
use crate::range::{unsupported, RecoveryResult};
use crate::text::{chars_of, string_from_chars};

verus! {

/// Whether `rest` names a disk (`N`) or one of its partitions (`NsM`), with
/// `N` and `M` non-empty runs of ASCII digits.
pub open spec fn valid_suffix(rest: Seq<char>) -> bool {
    ||| rest.len() > 0 && all_digits(rest)
    ||| exists|k: int|
        0 < k < rest.len() - 1 && #[trigger] rest[k] == 's' && all_digits(rest.take(k)) && all_digits(
            rest.skip(k + 1),
        )
}

/// Whether `s[from..to]` is all ASCII digits.
fn digits_between(s: &Vec<char>, from: usize, to: usize) -> (r: bool)
    requires
        from <= to <= s@.len(),
    ensures
        r == all_digits(s@.subrange(from as int, to as int)),
{
    let mut k = from;
    while k < to
        invariant
            from <= k <= to <= s@.len(),
            all_digits(s@.subrange(from as int, k as int)),
        decreases to - k,
    {
        if s[k] < '0' || s[k] > '9' {
            assert(s@.subrange(from as int, to as int)[k - from] == s@[k as int]);
            return false;
        }
        k = k + 1;
    }
    true
}

/// Whether `rest` is a valid disk or partition suffix.
pub fn valid_disk_suffix(rest: &Vec<char>) -> (r: bool)
    ensures
        r == valid_suffix(rest@),
{
    if rest.len() == 0 {
        return false;
    }
    let mut k: usize = 0;
    while k < rest.len() && rest[k] != 's'
        invariant
            k <= rest@.len(),
            forall|j: int| 0 <= j < k ==> rest@[j] != 's',
        decreases rest@.len() - k,
    {
        k = k + 1;
    }
    if k == rest.len() {
        let r = digits_between(rest, 0, k);
        assert(rest@.subrange(0, k as int) == rest@);
        proof {
            if !r {
                assert forall|m: int| 0 < m < rest@.len() - 1 && #[trigger] rest@[m] == 's' implies false by {}
            }
        }
        return r;
    }
    let disk_ok = digits_between(rest, 0, k);
    let part_ok = k + 1 < rest.len() && digits_between(rest, k + 1, rest.len());
    assert(rest@.subrange(0, k as int) == rest@.take(k as int));
    assert(rest@.subrange(k + 1, rest@.len() as int) == rest@.skip(k + 1));
    let r = k > 0 && disk_ok && part_ok;
    proof {
        if r {
            assert(rest@[k as int] == 's');
        } else {
            assert(!(rest@.len() > 0 && all_digits(rest@))) by {
                assert(rest@[k as int] == 's');
            }
            assert forall|m: int|
                0 < m < rest@.len() - 1 && #[trigger] rest@[m] == 's' && all_digits(rest@.take(m))
                    && all_digits(rest@.skip(m + 1)) implies false by {
                if m > k {
                    assert(rest@.take(m)[k as int] == 's');
                } else if m == k {
                } else {
                    assert(rest@[m] != 's');
                }
            }
        }
    }
    r
}

/// `/dev/disk`.
pub open spec fn disk_prefix() -> Seq<char> {
    seq!['/', 'd', 'e', 'v', '/', 'd', 'i', 's', 'k']
}

/// `/dev/rdisk`.
pub open spec fn raw_disk_prefix() -> Seq<char> {
    seq!['/', 'd', 'e', 'v', '/', 'r', 'd', 'i', 's', 'k']
}

/// The raw-device spelling of a disk path, or `None` when the path is not a
/// disk or partition device.
pub open spec fn spec_raw_device_path(path: Seq<char>) -> Option<Seq<char>> {
    if path.len() >= 9 && path.take(9) == disk_prefix() {
        if valid_suffix(path.skip(9)) {
            Some(raw_disk_prefix() + path.skip(9))
        } else {
            None
        }
    } else if path.len() >= 10 && path.take(10) == raw_disk_prefix() {
        if valid_suffix(path.skip(10)) {
            Some(path)
        } else {
            None
        }
    } else {
        None
    }
}

/// Returns the canonical raw-device spelling used for whole-disk access.
/// `/dev/rdiskN` avoids the buffered disk layer; partition paths retain their
/// suffix (`rdiskNsM`).
pub fn raw_device_path(path: &str) -> (r: RecoveryResult<String>)
    ensures
        match r {
            Ok(p) => spec_raw_device_path(path@) == Some(p@),
            Err(e) => spec_raw_device_path(path@) is None && e is Unsupported,
        },
{
    let p = chars_of(path);
    let disk = chars_of("/dev/disk");
    let raw = chars_of("/dev/rdisk");
    proof {
        reveal_strlit("/dev/disk");
        reveal_strlit("/dev/rdisk");
        assert(disk@ =~= disk_prefix());
        assert(raw@ =~= raw_disk_prefix());
    }
    if p.len() >= 9 && crate::bytes::chars_equal_at(p.as_slice(), 0, disk.as_slice()) {
        assert(p@.subrange(0, 9) == p@.take(9));
        let rest = crate::bytes::copy_range(p.as_slice(), 9, p.len());
        assert(rest@ == p@.skip(9));
        if !valid_disk_suffix(&rest) {
            return Err(unsupported("invalid disk device path"));
        }
        let mut out = raw;
        let ghost start = out@;
        let mut k: usize = 0;
        while k < rest.len()
            invariant
                k <= rest@.len(),
                out@ == start + rest@.take(k as int),
            decreases rest@.len() - k,
        {
            out.push(rest[k]);
            assert(rest@.take(k + 1) == rest@.take(k as int).push(rest@[k as int]));
            k = k + 1;
        }
        assert(rest@.take(k as int) == rest@);
        return Ok(string_from_chars(&out));
    }
    assert(!(p@.len() >= 9 && p@.take(9) == disk_prefix())) by {
        if p@.len() >= 9 {
            assert(p@.subrange(0, 9) == p@.take(9));
        }
    }
    if p.len() >= 10 && crate::bytes::chars_equal_at(p.as_slice(), 0, raw.as_slice()) {
        assert(p@.subrange(0, 10) == p@.take(10));
        let rest = crate::bytes::copy_range(p.as_slice(), 10, p.len());
        assert(rest@ == p@.skip(10));
        if !valid_disk_suffix(&rest) {
            return Err(unsupported("invalid raw disk device path"));
        }
        return Ok(string_from_chars(&p));
    }
    assert(!(p@.len() >= 10 && p@.take(10) == raw_disk_prefix())) by {
        if p@.len() >= 10 {
            assert(p@.subrange(0, 10) == p@.take(10));
        }
    }
    Err(unsupported("raw device path must be under /dev/disk or /dev/rdisk"))
}

/// Whether two strings hold the same characters.
fn same_text(a: &String, b: &String) -> (r: bool)
    ensures
        r == (a@ == b@),
{
    let x = chars_of(a.as_str());
    let y = chars_of(b.as_str());
    if x.len() != y.len() {
        return false;
    }
    let mut i: usize = 0;
    while i < x.len()
        invariant
            x@ == a@,
            y@ == b@,
            x@.len() == y@.len(),
            i <= x@.len(),
            forall|j: int| 0 <= j < i ==> x@[j] == y@[j],
        decreases x@.len() - i,
    {
        if x[i] != y[i] {
            return false;
        }
        i = i + 1;
    }
    assert(x@ =~= y@);
    true
}

/// Whether a destination, given by the components of its canonical path, is
/// the source or one of the directories holding it: then a recovery written
/// there could overwrite what it reads.
pub fn destination_holds_source(source: &Vec<String>, destination: &Vec<String>) -> (r: bool)
    ensures
        r == (destination@.len() <= source@.len() && forall|i: int|
            0 <= i < destination@.len() ==> #[trigger] source@[i]@ == destination@[i]@),
{
    if destination.len() > source.len() {
        return false;
    }
    let mut i: usize = 0;
    while i < destination.len()
        invariant
            destination@.len() <= source@.len(),
            i <= destination@.len(),
            forall|j: int| 0 <= j < i ==> #[trigger] source@[j]@ == destination@[j]@,
        decreases destination@.len() - i,
    {
        if !same_text(&source[i], &destination[i]) {
            return false;
        }
        i = i + 1;
    }
    true
}

} // verus!
