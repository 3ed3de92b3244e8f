//! The Fletcher-64 checksum APFS stores in every object header.

use vstd::prelude::*;
use crate::bytes::{le_u32, le_u64, spec_le_u32, spec_le_u64};
use crate::range::{io_error, RecoveryError, RecoveryResult};

verus! {

/// The modulus the checksum's running sums are kept under.
pub const FLETCHER_MODULUS: u64 = 0xffff_ffff;

/// The `i`-th checksummed word: words start after the 8-byte checksum field.
pub open spec fn checksum_word(data: Seq<u8>, i: int) -> int {
    spec_le_u32(data, 8 + 4 * i)
}

/// The first running sum over `k` words.
pub open spec fn sum1(data: Seq<u8>, k: int) -> int
    decreases k,
{
    if k <= 0 {
        0
    } else {
        (sum1(data, k - 1) + checksum_word(data, k - 1)) % (FLETCHER_MODULUS as int)
    }
}

/// The second running sum over `k` words.
pub open spec fn sum2(data: Seq<u8>, k: int) -> int
    decreases k,
{
    if k <= 0 {
        0
    } else {
        (sum2(data, k - 1) + sum1(data, k)) % (FLETCHER_MODULUS as int)
    }
}

/// The Fletcher-64 checksum of an object: the running sums over every word
/// after the checksum field, folded into two 32-bit halves.
pub open spec fn spec_fletcher64(data: Seq<u8>) -> int {
    let n = (data.len() - 8) / 4;
    let s1 = sum1(data, n);
    let s2 = sum2(data, n);
    let lower = (s1 + s2) % (FLETCHER_MODULUS as int);
    let upper = (s1 + lower) % (FLETCHER_MODULUS as int);
    lower + upper * 0x1_0000_0000
}

/// Whether `data` can be checksummed: at least the checksum field, and whole
/// words.
pub open spec fn checksummable(data: Seq<u8>) -> bool {
    data.len() >= 8 && data.len() % 4 == 0
}

/// Compute the Fletcher-64 checksum used by APFS object blocks.
///
/// APFS stores the checksum in the first eight bytes of the object header;
/// those bytes are therefore excluded from the checksum input. The remaining
/// object bytes are interpreted as little-endian 32-bit words and accumulated
/// modulo 0xffffffff.
pub fn fletcher64(data: &[u8]) -> (r: RecoveryResult<u64>)
    ensures
        r is Ok <==> checksummable(data@),
        r matches Ok(c) ==> c == spec_fletcher64(data@),
        r matches Err(e) ==> e == (RecoveryError::LengthTooLarge { length: data@.len() as u64 }),
{
    if data.len() < 8 || data.len() % 4 != 0 {
        return Err(RecoveryError::LengthTooLarge { length: data.len() as u64 });
    }
    let n = (data.len() - 8) / 4;
    assert(8 + 4 * n <= data.len());
    let mut s1: u64 = 0;
    let mut s2: u64 = 0;
    let mut i: usize = 0;
    while i < n
        invariant
            n == (data@.len() - 8) / 4,
            data@.len() >= 8,
            8 + 4 * n <= data.len(),
            i <= n,
            s1 == sum1(data@, i as int),
            s2 == sum2(data@, i as int),
            s1 < FLETCHER_MODULUS,
            s2 < FLETCHER_MODULUS,
        decreases n - i,
    {
        let value = le_u32(data, 8 + 4 * i) as u64;
        s1 = (s1 + value) % FLETCHER_MODULUS;
        s2 = (s2 + s1) % FLETCHER_MODULUS;
        i = i + 1;
    }
    let lower = (s1 + s2) % FLETCHER_MODULUS;
    let upper = (s1 + lower) % FLETCHER_MODULUS;
    assert(lower | (upper << 32) == lower + upper * 0x1_0000_0000) by (bit_vector)
        requires
            lower < 0x1_0000_0000,
            upper < 0x1_0000_0000,
    ;
    Ok(lower | (upper << 32))
}

/// Whether an object's stored checksum matches its content.
pub open spec fn checksum_valid(data: Seq<u8>) -> bool {
    checksummable(data) && spec_le_u64(data, 0) == spec_fletcher64(data)
}

/// Verify the Fletcher-64 checksum stored in an APFS object header.
pub fn verify_fletcher64(data: &[u8]) -> (r: RecoveryResult<()>)
    ensures
        r is Ok <==> checksum_valid(data@),
{
    if data.len() < 8 {
        return Err(RecoveryError::LengthTooLarge { length: data.len() as u64 });
    }
    let stored = le_u64(data, 0);
    let computed = fletcher64(data)?;
    if stored != computed {
        return Err(io_error("APFS object checksum mismatch"));
    }
    Ok(())
}

/// The running sums read only the bytes after the checksum field.
pub proof fn lemma_sums_ignore_header(a: Seq<u8>, b: Seq<u8>, k: int)
    requires
        a.len() == b.len(),
        a.len() >= 8,
        0 <= k <= (a.len() - 8) / 4,
        forall|i: int| 8 <= i < a.len() ==> a[i] == b[i],
    ensures
        sum1(a, k) == sum1(b, k),
        sum2(a, k) == sum2(b, k),
    decreases k,
{
    if k > 0 {
        lemma_sums_ignore_header(a, b, k - 1);
        let o = 8 + 4 * (k - 1);
        assert(a[o] == b[o] && a[o + 1] == b[o + 1] && a[o + 2] == b[o + 2] && a[o + 3] == b[o + 3]);
    }
}

/// The checksum does not depend on the checksum field itself: two objects
/// that differ only in their first eight bytes have the same checksum.
pub proof fn lemma_checksum_ignores_stored_field(a: Seq<u8>, b: Seq<u8>)
    requires
        a.len() == b.len(),
        a.len() >= 8,
        forall|i: int| 8 <= i < a.len() ==> a[i] == b[i],
    ensures
        spec_fletcher64(a) == spec_fletcher64(b),
{
    lemma_sums_ignore_header(a, b, (a.len() - 8) / 4);
}

/// Storing an object's checksum in its header makes it verify: after the
/// first eight bytes are set to the little-endian checksum, the stored value
/// matches the recomputed one.
pub proof fn lemma_checksum_round_trip(data: Seq<u8>, sealed: Seq<u8>)
    requires
        checksummable(data),
        spec_fletcher64(data) <= u64::MAX,
        sealed.len() == data.len(),
        forall|i: int| 8 <= i < data.len() ==> sealed[i] == data[i],
        spec_le_u64(sealed, 0) == spec_fletcher64(data),
    ensures
        checksum_valid(sealed),
{
    lemma_checksum_ignores_stored_field(data, sealed);
}


/// Reducing the left summand first does not change a sum's remainder.
proof fn lemma_mod_left(x: int, y: int)
    ensures
        ((x % (FLETCHER_MODULUS as int)) + y) % (FLETCHER_MODULUS as int) == (x + y) % (FLETCHER_MODULUS as int),
{
    let m = FLETCHER_MODULUS as int;
    vstd::arithmetic::div_mod::lemma_add_mod_noop_right(y, x, m);
    assert(y + x % m == x % m + y);
    assert(y + x == x + y);
}

/// The first running sum over objects that differ only in word `j`, by
/// `delta`: equal up to that word, shifted by `delta` from it on.
proof fn lemma_sum1_shift(a: Seq<u8>, b: Seq<u8>, j: int, delta: int, k: int)
    requires
        0 <= j,
        0 <= k,
        forall|i: int| 0 <= i < k && i != j ==> #[trigger] checksum_word(b, i) == checksum_word(a, i),
        j < k ==> checksum_word(b, j) == checksum_word(a, j) + delta,
    ensures
        k <= j ==> sum1(b, k) == sum1(a, k),
        k > j ==> sum1(b, k) == (sum1(a, k) + delta) % (FLETCHER_MODULUS as int),
    decreases k,
{
    let m = FLETCHER_MODULUS as int;
    if k > 0 {
        lemma_sum1_shift(a, b, j, delta, k - 1);
        let p = sum1(a, k - 1);
        let w = checksum_word(a, k - 1);
        assert(sum1(a, k) == (p + w) % m);
        if k - 1 == j {
            assert(sum1(b, k) == (p + (w + delta)) % m);
            lemma_mod_left(p + w, delta);
            assert(p + (w + delta) == p + w + delta);
        } else if k - 1 > j {
            assert(checksum_word(b, k - 1) == w);
            assert(sum1(b, k) == ((p + delta) % m + w) % m);
            lemma_mod_left(p + delta, w);
            lemma_mod_left(p + w, delta);
            assert(p + delta + w == p + w + delta);
        } else {
            assert(checksum_word(b, k - 1) == w);
        }
    }
}

/// Changing one checksummed word of a sealed object by an amount the
/// checksum's modulus does not divide (anything but swapping 0 and
/// 0xFFFF_FFFF) is always caught: the object no longer verifies.
pub proof fn lemma_checksum_catches_word_change(a: Seq<u8>, b: Seq<u8>, j: int)
    requires
        checksum_valid(a),
        b.len() == a.len(),
        0 <= j < (a.len() - 8) / 4,
        forall|i: int| 0 <= i < a.len() && !(8 + 4 * j <= i < 8 + 4 * j + 4) ==> a[i] == b[i],
        (checksum_word(b, j) - checksum_word(a, j)) % (FLETCHER_MODULUS as int) != 0,
    ensures
        !checksum_valid(b),
{
    let m = FLETCHER_MODULUS as int;
    let n = (a.len() - 8) / 4;
    let delta = checksum_word(b, j) - checksum_word(a, j);
    assert forall|i: int| 0 <= i < n && i != j implies #[trigger] checksum_word(b, i) == checksum_word(a, i) by {
        let o = 8 + 4 * i;
        assert(a[o] == b[o] && a[o + 1] == b[o + 1] && a[o + 2] == b[o + 2] && a[o + 3] == b[o + 3]);
    }
    lemma_sum1_shift(a, b, j, delta, n);
    assert(spec_le_u64(b, 0) == spec_le_u64(a, 0)) by {
        assert(a[0] == b[0] && a[1] == b[1] && a[2] == b[2] && a[3] == b[3]);
        assert(a[4] == b[4] && a[5] == b[5] && a[6] == b[6] && a[7] == b[7]);
    }
    if checksum_valid(b) {
        let s1 = sum1(a, n);
        let la = (s1 + sum2(a, n)) % m;
        let ua = (s1 + la) % m;
        let t1 = sum1(b, n);
        let lb = (t1 + sum2(b, n)) % m;
        let ub = (t1 + lb) % m;
        assert(spec_fletcher64(a) == la + ua * 0x1_0000_0000);
        assert(spec_fletcher64(b) == lb + ub * 0x1_0000_0000);
        assert(la == lb && ua == ub) by (nonlinear_arith)
            requires
                la + ua * 0x1_0000_0000 == lb + ub * 0x1_0000_0000,
                0 <= la < 0x1_0000_0000,
                0 <= lb < 0x1_0000_0000,
                0 <= ua,
                0 <= ub,
        ;
        assert(t1 == (s1 + delta) % m);
        lemma_mod_left(s1 + delta, lb);
        let x = s1 + la;
        assert(ub == (x + delta) % m);
        assert(ua == x % m);
        vstd::arithmetic::div_mod::lemma_sub_mod_noop(x + delta, x, m);
        assert(x + delta - x == delta);
        assert(((x + delta) % m - x % m) % m == delta % m);
        assert((x + delta) % m - x % m == 0);
        assert(0int % m == 0);
    }
}

} // verus!
