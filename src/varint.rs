//! The 1 to 9 byte big-endian variable-length integer of the file format.
use vstd::arithmetic::div_mod::lemma_mod_breakdown;
use vstd::prelude::*;

verus! {

/// A decoded varint: its value and the number of bytes it took.
#[derive(Debug, Clone, Copy, PartialEq, Eq, Structural)]
pub struct VarInt(pub i64, pub u8);

/// Why a varint could not be decoded. A ninth byte always ends a varint, so `TooLong`
/// is never the outcome.
#[derive(Debug, Clone, Copy, PartialEq, Eq, Structural)]
pub enum VarIntError {
    Empty,
    Incomplete,
    TooLong,
}

/// Length of the varint at the front of `s`, looking from byte `i` on: one past the
/// first of the first eight bytes whose high bit is clear, else nine. Where the bytes
/// run out first, the result is `s.len() + 1`.
pub open spec fn varint_len_from(s: Seq<u8>, i: nat) -> nat
    decreases 8 - i,
{
    if i >= 8 {
        9
    } else if i >= s.len() {
        i + 1
    } else if s[i as int] < 0x80 {
        i + 1
    } else {
        varint_len_from(s, i + 1)
    }
}

pub open spec fn varint_len(s: Seq<u8>) -> nat {
    varint_len_from(s, 0)
}

/// The low seven bits of each of the first `n` bytes, most significant first.
pub open spec fn septets(s: Seq<u8>, n: nat) -> nat
    decreases n,
{
    if n == 0 {
        0
    } else {
        septets(s, (n - 1) as nat) * 128 + (s[n - 1] % 128) as nat
    }
}

/// The 64 bits carried by a varint of `n` bytes: seven from each byte, and all eight
/// of a ninth.
pub open spec fn varint_bits(s: Seq<u8>, n: nat) -> nat {
    if n == 9 {
        septets(s, 8) * 256 + s[8] as nat
    } else {
        septets(s, n)
    }
}

/// Two's complement reading of a 64-bit pattern.
pub open spec fn signed64(u: nat) -> int {
    if u < 0x8000_0000_0000_0000 {
        u as int
    } else {
        u - 0x1_0000_0000_0000_0000
    }
}

/// What decoding the front of `s` gives.
pub open spec fn varint_decode(s: Seq<u8>) -> Result<VarInt, VarIntError> {
    if s.len() == 0 {
        Err(VarIntError::Empty)
    } else if varint_len(s) > s.len() {
        Err(VarIntError::Incomplete)
    } else {
        Ok(VarInt(signed64(varint_bits(s, varint_len(s))) as i64, varint_len(s) as u8))
    }
}

pub open spec fn pow128(n: nat) -> nat
    decreases n,
{
    if n == 0 {
        1
    } else {
        128 * pow128((n - 1) as nat)
    }
}

proof fn lemma_pow128_mono(a: nat, b: nat)
    requires
        a <= b,
    ensures
        pow128(a) <= pow128(b),
    decreases b - a,
{
    if a < b {
        lemma_pow128_mono(a, (b - 1) as nat);
    }
}

proof fn lemma_pow128_values()
    ensures
        pow128(7) == 0x2_0000_0000_0000,
        pow128(8) == 0x100_0000_0000_0000,
{
    assert(pow128(0) == 1);
    assert(pow128(1) == 128);
    assert(pow128(2) == 0x4000);
    assert(pow128(3) == 0x20_0000);
    assert(pow128(4) == 0x1000_0000);
    assert(pow128(5) == 0x8_0000_0000);
    assert(pow128(6) == 0x400_0000_0000);
    assert(pow128(7) == 0x2_0000_0000_0000);
}

proof fn lemma_septets_bound(s: Seq<u8>, n: nat)
    ensures
        septets(s, n) < pow128(n),
    decreases n,
{
    if n > 0 {
        lemma_septets_bound(s, (n - 1) as nat);
    }
}

/// Two's complement value of a 64-bit pattern, computed without truncating casts.
pub(crate) fn to_signed(u: u64) -> (r: i64)
    ensures
        r == signed64(u as nat),
{
    if u < 0x8000_0000_0000_0000 {
        u as i64
    } else {
        ((u - 0x8000_0000_0000_0000) as i64) - i64::MAX - 1
    }
}

impl VarInt {
    /// Decodes the varint at the front of `bytes`.
    pub fn from_be_bytes(bytes: &[u8]) -> (r: Result<VarInt, VarIntError>)
        ensures
            r == varint_decode(bytes@),
    {
        if bytes.len() == 0 {
            return Err(VarIntError::Empty);
        }
        let mut value: u64 = 0;
        let mut i: usize = 0;
        while i < 8
            invariant
                0 < bytes@.len(),
                i <= 8,
                value == septets(bytes@, i as nat),
                varint_len(bytes@) == varint_len_from(bytes@, i as nat),
            decreases 8 - i,
        {
            if i >= bytes.len() {
                return Err(VarIntError::Incomplete);
            }
            let b = bytes[i];
            proof {
                lemma_septets_bound(bytes@, i as nat);
                lemma_pow128_mono(i as nat, 7);
                lemma_pow128_values();
            }
            value = value * 128 + (b % 128) as u64;
            i = i + 1;
            if b < 0x80 {
                return Ok(VarInt(to_signed(value), i as u8));
            }
        }
        if bytes.len() < 9 {
            return Err(VarIntError::Incomplete);
        }
        proof {
            lemma_septets_bound(bytes@, 8);
            lemma_pow128_values();
        }
        value = value * 256 + bytes[8] as u64;
        Ok(VarInt(to_signed(value), 9))
    }
}


/// The 64-bit pattern of `v`, read as unsigned.
pub open spec fn unsigned64(v: i64) -> nat {
    if v >= 0 {
        v as nat
    } else {
        (v + 0x1_0000_0000_0000_0000) as nat
    }
}

/// The smallest `n` from `i` on, below nine, with `u < 128^n`; nine where there is none.
pub open spec fn size_from(u: nat, i: nat) -> nat
    decreases 9 - i,
{
    if i >= 9 {
        9
    } else if u < pow128(i) {
        i
    } else {
        size_from(u, i + 1)
    }
}

/// Number of bytes that the encoding of `v` takes.
pub open spec fn varint_size(v: i64) -> nat {
    size_from(unsigned64(v), 1)
}

/// The low `7 * k` bits of `u` as `k` bytes, most significant first, each with its
/// high bit set.
pub open spec fn continued(u: nat, k: nat) -> Seq<u8>
    decreases k,
{
    if k == 0 {
        seq![]
    } else {
        continued(u / 128, (k - 1) as nat).push((u % 128 + 128) as u8)
    }
}

/// The encoding of `v`: seven bits per byte and a high bit on every byte but the
/// last, or, for values that need more than 56 bits, eight such bytes and a ninth
/// that carries eight bits.
pub open spec fn varint_encoding(v: i64) -> Seq<u8> {
    let u = unsigned64(v);
    let n = varint_size(v);
    if n == 9 {
        continued(u / 256, 8).push((u % 256) as u8)
    } else {
        continued(u / 128, (n - 1) as nat).push((u % 128) as u8)
    }
}

proof fn lemma_continued_shape(u: nat, k: nat)
    ensures
        continued(u, k).len() == k,
        forall|j: int| 0 <= j < k ==> continued(u, k)[j] >= 0x80,
    decreases k,
{
    if k > 0 {
        lemma_continued_shape(u / 128, (k - 1) as nat);
    }
}

proof fn lemma_septets_continued(u: nat, k: nat, t: Seq<u8>)
    ensures
        septets(continued(u, k) + t, k) == u % pow128(k),
    decreases k,
{
    if k == 0 {
        assert(u % 1 == 0);
    } else {
        let b = (u % 128 + 128) as u8;
        let prev = continued(u / 128, (k - 1) as nat);
        lemma_continued_shape(u / 128, (k - 1) as nat);
        assert(continued(u, k) + t =~= prev + (seq![b] + t));
        lemma_septets_continued(u / 128, (k - 1) as nat, seq![b] + t);
        assert((continued(u, k) + t)[k - 1] == b);
        lemma_pow128_positive((k - 1) as nat);
        lemma_mod_breakdown(u as int, 128, pow128((k - 1) as nat) as int);
    }
}

proof fn lemma_pow128_positive(n: nat)
    ensures
        pow128(n) > 0,
    decreases n,
{
    if n > 0 {
        lemma_pow128_positive((n - 1) as nat);
    }
}

/// Where the bytes from `i` up to `k` have their high bit set and byte `k` ends the
/// varint, the varint is `k + 1` bytes long.
proof fn lemma_len_from_marked(s: Seq<u8>, i: nat, k: nat)
    requires
        i <= k <= 8,
        k < s.len(),
        forall|j: int| i <= j < k ==> s[j] >= 0x80,
        k < 8 ==> s[k as int] < 0x80,
    ensures
        varint_len_from(s, i) == k + 1,
    decreases k - i,
{
    if i < k {
        lemma_len_from_marked(s, i + 1, k);
    }
}

proof fn lemma_size_from_bounds(u: nat, i: nat)
    requires
        1 <= i <= 9,
        2 <= i ==> u >= pow128((i - 1) as nat),
    ensures
        i <= size_from(u, i) <= 9,
        size_from(u, i) <= 8 ==> u < pow128(size_from(u, i)),
        size_from(u, i) >= 2 ==> u >= pow128((size_from(u, i) - 1) as nat),
    decreases 9 - i,
{
    if i < 9 && u >= pow128(i) {
        lemma_size_from_bounds(u, i + 1);
    }
}

proof fn lemma_varint_size_bounds(v: i64)
    ensures
        1 <= varint_size(v) <= 9,
        varint_size(v) <= 8 ==> unsigned64(v) < pow128(varint_size(v)),
        varint_size(v) >= 2 ==> unsigned64(v) >= pow128((varint_size(v) - 1) as nat),
{
    assert(pow128(0) == 1);
    lemma_size_from_bounds(unsigned64(v), 1);
}

/// Decoding the encoding of any value gives back that value together with the
/// encoding's length; the length is one exactly for the values 0 to 127, at most
/// nine, and nine for every negative value.
pub proof fn lemma_varint_round_trip(v: i64)
    ensures
        varint_decode(varint_encoding(v)) == Ok::<VarInt, VarIntError>(
            VarInt(v, varint_encoding(v).len() as u8),
        ),
        varint_encoding(v).len() == varint_size(v),
        1 <= varint_size(v) <= 9,
        (0 <= v <= 127) <==> varint_size(v) == 1,
        v < 0 ==> varint_size(v) == 9,
{
    let u = unsigned64(v);
    let n = varint_size(v);
    let s = varint_encoding(v);
    lemma_varint_size_bounds(v);
    lemma_pow128_values();
    assert(pow128(0) == 1);
    assert(pow128(1) == 128);
    if n == 9 {
        let c = continued(u / 256, 8);
        lemma_continued_shape(u / 256, 8);
        lemma_len_from_marked(s, 0, 8);
        assert(s =~= c + seq![(u % 256) as u8]);
        lemma_septets_continued(u / 256, 8, seq![(u % 256) as u8]);
        assert(u / 256 < pow128(8));
        assert(septets(s, 8) == u / 256);
        assert(varint_bits(s, 9) == u);
    } else {
        let c = continued(u / 128, (n - 1) as nat);
        lemma_continued_shape(u / 128, (n - 1) as nat);
        lemma_len_from_marked(s, 0, (n - 1) as nat);
        assert(s =~= c + seq![(u % 128) as u8]);
        lemma_septets_continued(u / 128, (n - 1) as nat, seq![(u % 128) as u8]);
        lemma_pow128_positive((n - 1) as nat);
        lemma_mod_breakdown(u as int, 128, pow128((n - 1) as nat) as int);
        assert(s[n - 1] == (u % 128) as u8);
        assert(septets(s, n) == u % pow128(n));
        assert(u % pow128(n) == u) by {
            vstd::arithmetic::div_mod::lemma_small_mod(u, pow128(n));
        }
    }
    if v < 0 {
        assert(n == 9) by {
            lemma_pow128_mono((n - 1) as nat, 8);
        }
    }
    if 0 <= v <= 127 {
        assert(size_from(u, 1) == 1);
    }
}

proof fn lemma_size_from_monotonic(a: nat, b: nat, i: nat)
    requires
        a <= b,
    ensures
        size_from(a, i) <= size_from(b, i),
    decreases 9 - i,
{
    if i < 9 && a >= pow128(i) {
        lemma_size_from_monotonic(a, b, i + 1);
    } else if i < 9 && b >= pow128(i) {
        lemma_size_from_ge(b, i + 1);
    }
}

proof fn lemma_size_from_ge(u: nat, i: nat)
    ensures
        size_from(u, i) >= i || size_from(u, i) == 9,
    decreases 9 - i,
{
    if i < 9 && u >= pow128(i) {
        lemma_size_from_ge(u, i + 1);
    }
}

/// Among values that are not negative, a larger value never takes fewer bytes.
pub proof fn lemma_varint_size_monotonic(a: i64, b: i64)
    requires
        0 <= a <= b,
    ensures
        varint_size(a) <= varint_size(b),
{
    lemma_size_from_monotonic(unsigned64(a), unsigned64(b), 1);
}

/// The `k` bytes of `continued(w, k)`.
fn continued_bytes(w: u64, k: usize) -> (r: Vec<u8>)
    requires
        k <= 8,
    ensures
        r@ == continued(w as nat, k as nat),
    decreases k,
{
    if k == 0 {
        Vec::new()
    } else {
        let mut r = continued_bytes(w / 128, k - 1);
        r.push((w % 128 + 128) as u8);
        r
    }
}

/// Encodes `v` as a varint.
pub fn encode_varint(v: i64) -> (r: Vec<u8>)
    ensures
        r@ == varint_encoding(v),
        1 <= r@.len() <= 9,
{
    let u: u64 = if v >= 0 {
        v as u64
    } else {
        ((v + i64::MAX + 1) as u64) + 0x8000_0000_0000_0000
    };
    proof {
        lemma_pow128_values();
        assert(pow128(0) == 1);
        assert(pow128(1) == 128);
    }
    let mut n: usize = 1;
    let mut limit: u64 = 128;
    while n < 9 && u >= limit
        invariant
            1 <= n <= 9,
            u == unsigned64(v),
            n <= 8 ==> limit == pow128(n as nat),
            size_from(u as nat, 1) == size_from(u as nat, n as nat),
        decreases 9 - n,
    {
        n = n + 1;
        if n <= 8 {
            proof {
                lemma_pow128_mono((n - 1) as nat, 7);
                lemma_pow128_values();
            }
            limit = limit * 128;
        }
    }
    proof {
        lemma_varint_round_trip(v);
    }
    let mut r: Vec<u8>;
    if n == 9 {
        r = continued_bytes(u / 256, 8);
        r.push((u % 256) as u8);
    } else {
        r = continued_bytes(u / 128, n - 1);
        r.push((u % 128) as u8);
    }
    r
}


proof fn lemma_len_from_range(s: Seq<u8>, i: nat)
    requires
        i <= 8,
        i <= s.len(),
    ensures
        i + 1 <= varint_len_from(s, i) <= 9,
        varint_len_from(s, i) <= s.len() + 1,
        i <= s.len() ==> varint_len_from(s, i) <= s.len() || varint_len_from(s, i) == s.len() + 1,
    decreases 8 - i,
{
    if i < 8 && i < s.len() && s[i as int] >= 0x80 {
        lemma_len_from_range(s, i + 1);
    }
}

/// A decoded varint takes between one and nine of the bytes that are there.
pub proof fn lemma_varint_decode_len(s: Seq<u8>)
    ensures
        varint_decode(s) matches Ok(v) ==> 1 <= v.1 <= 9 && v.1 <= s.len() && v.1 as nat
            == varint_len(s),
{
    lemma_len_from_range(s, 0);
}


proof fn lemma_len_from_extend(x: Seq<u8>, y: Seq<u8>, i: nat)
    requires
        i <= 8,
        i <= x.len(),
        varint_len_from(x, i) <= x.len(),
    ensures
        varint_len_from(x + y, i) == varint_len_from(x, i),
    decreases 8 - i,
{
    if i < 8 && i < x.len() && x[i as int] >= 0x80 {
        lemma_len_from_extend(x, y, i + 1);
    }
}

proof fn lemma_septets_extend(x: Seq<u8>, y: Seq<u8>, n: nat)
    requires
        n <= x.len(),
    ensures
        septets(x + y, n) == septets(x, n),
    decreases n,
{
    if n > 0 {
        lemma_septets_extend(x, y, (n - 1) as nat);
    }
}

/// A varint that the bytes at hand hold decodes the same when more bytes follow.
pub proof fn lemma_varint_decode_extend(x: Seq<u8>, y: Seq<u8>)
    ensures
        varint_decode(x) is Ok ==> varint_decode(x + y) == varint_decode(x),
        varint_decode(x) != Err::<VarInt, VarIntError>(VarIntError::TooLong),
{
    if varint_decode(x) is Ok {
        lemma_len_from_extend(x, y, 0);
        lemma_len_from_range(x, 0);
        let n = varint_len(x);
        if n == 9 {
            lemma_septets_extend(x, y, 8);
        } else {
            lemma_septets_extend(x, y, n);
        }
    }
}

} // verus!
