//! Fixed-width integer fields decoded from untrusted byte buffers.

use vstd::prelude::*;

verus! {

/// Little-endian 16-bit value at `o`.
pub open spec fn spec_le_u16(s: Seq<u8>, o: int) -> int {
    s[o] + 256 * s[o + 1]
}

/// Little-endian 32-bit value at `o`.
pub open spec fn spec_le_u32(s: Seq<u8>, o: int) -> int {
    spec_le_u16(s, o) + 65536 * spec_le_u16(s, o + 2)
}

/// Little-endian 64-bit value at `o`.
pub open spec fn spec_le_u64(s: Seq<u8>, o: int) -> int {
    spec_le_u32(s, o) + 4294967296 * spec_le_u32(s, o + 4)
}

/// Big-endian 16-bit value at `o`.
pub open spec fn spec_be_u16(s: Seq<u8>, o: int) -> int {
    256 * s[o] + s[o + 1]
}

/// Big-endian 32-bit value at `o`.
pub open spec fn spec_be_u32(s: Seq<u8>, o: int) -> int {
    65536 * spec_be_u16(s, o) + spec_be_u16(s, o + 2)
}

/// Reads a little-endian `u16` at `o`.
pub fn le_u16(b: &[u8], o: usize) -> (r: u16)
    requires
        o + 2 <= b@.len(),
    ensures
        r == spec_le_u16(b@, o as int),
{
    let _len = b.len();
    (b[o] as u16) + 256 * (b[o + 1] as u16)
}

/// Reads a little-endian `u32` at `o`.
pub fn le_u32(b: &[u8], o: usize) -> (r: u32)
    requires
        o + 4 <= b@.len(),
    ensures
        r == spec_le_u32(b@, o as int),
{
    let _len = b.len();
    let lo = le_u16(b, o) as u32;
    let hi = le_u16(b, o + 2) as u32;
    lo + 65536 * hi
}

/// Reads a little-endian `u64` at `o`.
pub fn le_u64(b: &[u8], o: usize) -> (r: u64)
    requires
        o + 8 <= b@.len(),
    ensures
        r == spec_le_u64(b@, o as int),
{
    let _len = b.len();
    let lo = le_u32(b, o) as u64;
    let hi = le_u32(b, o + 4) as u64;
    lo + 4294967296 * hi
}

/// Reads a big-endian `u16` at `o`.
pub fn be_u16(b: &[u8], o: usize) -> (r: u16)
    requires
        o + 2 <= b@.len(),
    ensures
        r == spec_be_u16(b@, o as int),
{
    let _len = b.len();
    256 * (b[o] as u16) + (b[o + 1] as u16)
}

/// Reads a big-endian `u32` at `o`.
pub fn be_u32(b: &[u8], o: usize) -> (r: u32)
    requires
        o + 4 <= b@.len(),
    ensures
        r == spec_be_u32(b@, o as int),
{
    let _len = b.len();
    let hi = be_u16(b, o) as u32;
    let lo = be_u16(b, o + 2) as u32;
    65536 * hi + lo
}

/// Writes `v` as a little-endian `u16` at `o`.
pub fn put_le_u16(b: &mut Vec<u8>, o: usize, v: u16)
    requires
        o + 2 <= old(b)@.len(),
    ensures
        final(b)@.len() == old(b)@.len(),
        spec_le_u16(final(b)@, o as int) == v,
        forall|i: int| 0 <= i < old(b)@.len() && !(o <= i < o + 2) ==> final(b)@[i] == old(b)@[i],
{
    let _len = b.len();
    b.set(o, (v % 256) as u8);
    b.set(o + 1, (v / 256) as u8);
}

/// Writes `v` as a little-endian `u32` at `o`.
pub fn put_le_u32(b: &mut Vec<u8>, o: usize, v: u32)
    requires
        o + 4 <= old(b)@.len(),
    ensures
        final(b)@.len() == old(b)@.len(),
        spec_le_u32(final(b)@, o as int) == v,
        forall|i: int| 0 <= i < old(b)@.len() && !(o <= i < o + 4) ==> final(b)@[i] == old(b)@[i],
{
    let _len = b.len();
    put_le_u16(b, o, (v % 65536) as u16);
    put_le_u16(b, o + 2, (v / 65536) as u16);
}

/// Writes `v` as a little-endian `u64` at `o`.
pub fn put_le_u64(b: &mut Vec<u8>, o: usize, v: u64)
    requires
        o + 8 <= old(b)@.len(),
    ensures
        final(b)@.len() == old(b)@.len(),
        spec_le_u64(final(b)@, o as int) == v,
        forall|i: int| 0 <= i < old(b)@.len() && !(o <= i < o + 8) ==> final(b)@[i] == old(b)@[i],
{
    let _len = b.len();
    put_le_u32(b, o, (v % 4294967296) as u32);
    put_le_u32(b, o + 4, (v / 4294967296) as u32);
}

/// Copies `src` into `dst` starting at `o`.
pub fn put_bytes(dst: &mut Vec<u8>, o: usize, src: &[u8])
    requires
        o + src@.len() <= old(dst)@.len(),
    ensures
        final(dst)@.len() == old(dst)@.len(),
        final(dst)@.subrange(o as int, o + src@.len()) == src@,
        forall|i: int|
            0 <= i < old(dst)@.len() && !(o <= i < o + src@.len()) ==> final(dst)@[i]
                == old(dst)@[i],
{
    let _len = dst.len();
    let mut k: usize = 0;
    while k < src.len()
        invariant
            k <= src@.len(),
            o + src@.len() <= dst@.len(),
            dst@.len() == old(dst)@.len(),
            dst@.len() == _len,
            forall|j: int| 0 <= j < k ==> dst@[o + j] == src@[j],
            forall|i: int|
                0 <= i < old(dst)@.len() && !(o <= i < o + k) ==> dst@[i] == old(dst)@[i],
        decreases src@.len() - k,
    {
        dst.set(o + k, src[k]);
        k = k + 1;
    }
    assert(dst@.subrange(o as int, o + src@.len()) =~= src@);
}

/// Copies `b[start..end]` into a new vector.
pub fn copy_range<T: Copy>(b: &[T], start: usize, end: usize) -> (r: Vec<T>)
    requires
        start <= end <= b@.len(),
    ensures
        r@ == b@.subrange(start as int, end as int),
{
    let mut r: Vec<T> = Vec::new();
    let mut k = start;
    while k < end
        invariant
            start <= k <= end <= b@.len(),
            r@ == b@.subrange(start as int, k as int),
        decreases end - k,
    {
        r.push(b[k]);
        k = k + 1;
        assert(r@ == b@.subrange(start as int, k as int));
    }
    r
}

/// Whether `b[o..o + pattern.len()]` equals `pattern`.
pub fn bytes_match_at(b: &[u8], o: usize, pattern: &[u8]) -> (r: bool)
    requires
        o + pattern@.len() <= b@.len(),
    ensures
        r == (b@.subrange(o as int, o + pattern@.len()) == pattern@),
{
    let _len = b.len();
    let mut k: usize = 0;
    while k < pattern.len()
        invariant
            k <= pattern@.len(),
            o + pattern@.len() <= b@.len(),
            b@.len() == _len,
            forall|j: int| 0 <= j < k ==> b@[o + j] == pattern@[j],
        decreases pattern@.len() - k,
    {
        if b[o + k] != pattern[k] {
            assert(b@.subrange(o as int, o + pattern@.len())[k as int] != pattern@[k as int]);
            return false;
        }
        k = k + 1;
    }
    assert(b@.subrange(o as int, o + pattern@.len()) =~= pattern@);
    true
}

/// Whether every byte of `b[start..end]` is zero.
pub fn all_zero(b: &[u8], start: usize, end: usize) -> (r: bool)
    requires
        start <= end <= b@.len(),
    ensures
        r == (forall|i: int| start <= i < end ==> b@[i] == 0),
{
    let mut k = start;
    while k < end
        invariant
            start <= k <= end <= b@.len(),
            forall|i: int| start <= i < k ==> b@[i] == 0,
        decreases end - k,
    {
        if b[k] != 0 {
            return false;
        }
        k = k + 1;
    }
    true
}

/// Whether `pattern` occurs in `b` at index `o`, element by element.
pub fn chars_equal_at(b: &[char], o: usize, pattern: &[char]) -> (r: bool)
    requires
        o + pattern@.len() <= b@.len(),
    ensures
        r == (b@.subrange(o as int, o + pattern@.len()) == pattern@),
{
    let mut k: usize = 0;
    while k < pattern.len()
        invariant
            k <= pattern@.len(),
            o + pattern@.len() <= b@.len(),
            o + pattern@.len() <= b.len(),
            forall|j: int| 0 <= j < k ==> b@[o + j] == pattern@[j],
        decreases pattern@.len() - k,
    {
        if b[o + k] != pattern[k] {
            assert(b@.subrange(o as int, o + pattern@.len())[k as int] != pattern@[k as int]);
            return false;
        }
        k = k + 1;
    }
    assert(b@.subrange(o as int, o + pattern@.len()) =~= pattern@);
    true
}

} // verus!
