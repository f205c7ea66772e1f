//! Variable-length integers: little-endian base 128 with a continuation bit.
//!
//! Each byte carries seven payload bits, least significant group first. The
//! high bit is set on every byte but the last. A `u64` takes between one and
//! ten bytes.

use vstd::prelude::*;

verus! {

/// `128` to the power `k`.
pub open spec fn pow128(k: nat) -> nat
    decreases k,
{
    if k == 0 {
        1
    } else {
        128 * pow128((k - 1) as nat)
    }
}

/// The encoding of `n`: the low seven bits with the continuation bit while
/// more than seven bits remain, then the rest without it.
pub open spec fn encode_varint(n: u64) -> Seq<u8>
    decreases n,
{
    if n < 128 {
        seq![n as u8]
    } else {
        seq![(n % 128 + 128) as u8] + encode_varint(n / 128)
    }
}

/// The number of bytes that the encoding of `n` takes.
pub open spec fn varint_size(n: u64) -> nat {
    encode_varint(n).len()
}

/// `s` starts with a varint of exactly `len` bytes: `len - 1` continuation
/// bytes and then a byte without the continuation bit, ten bytes at most.
pub open spec fn is_varint_of_len(s: Seq<u8>, len: nat) -> bool {
    &&& 1 <= len <= 10
    &&& len <= s.len()
    &&& s[len - 1] < 128
    &&& forall|j: int| 0 <= j < len - 1 ==> s[j] >= 128
}

/// The length of the varint that `s` starts with, if it starts with one.
pub open spec fn varint_end(s: Seq<u8>) -> Option<nat> {
    if exists|len: nat| is_varint_of_len(s, len) {
        Some(choose|len: nat| is_varint_of_len(s, len))
    } else {
        None
    }
}

/// The sum of the seven-bit payloads of the first `len` bytes of `s`, the
/// payload of byte `i` weighted by `128` to the power `i`.
pub open spec fn varint_value(s: Seq<u8>, len: nat) -> nat
    decreases len,
{
    if len == 0 {
        0
    } else {
        (s[0] % 128) as nat + 128 * varint_value(s.skip(1), (len - 1) as nat)
    }
}

/// What reading a varint from the start of `s` gives: the value and the
/// number of bytes read. The value is the payload sum reduced modulo `2^64`:
/// bits of a tenth byte that do not fit in sixty-four bits are dropped.
/// `None` where `s` ends before the varint does or where the varint would
/// take more than ten bytes.
pub open spec fn decode_varint(s: Seq<u8>) -> Option<(u64, nat)> {
    match varint_end(s) {
        Some(len) => Some(((varint_value(s, len) % 0x1_0000_0000_0000_0000) as u64, len)),
        None => None,
    }
}

/// At most one length fits.
pub proof fn lemma_varint_len_unique(s: Seq<u8>, a: nat, b: nat)
    requires
        is_varint_of_len(s, a),
        is_varint_of_len(s, b),
    ensures
        a == b,
{
    if a < b {
        assert(s[a - 1] >= 128);
    } else if b < a {
        assert(s[b - 1] >= 128);
    }
}

/// A length that fits is the one that `varint_end` gives.
pub proof fn lemma_varint_end_is(s: Seq<u8>, len: nat)
    requires
        is_varint_of_len(s, len),
    ensures
        varint_end(s) == Some(len),
{
    let chosen = choose|l: nat| is_varint_of_len(s, l);
    lemma_varint_len_unique(s, len, chosen);
}

/// The encoding of a number below `128^k` takes at most `k` bytes.
pub proof fn lemma_varint_size_bound(n: u64, k: nat)
    requires
        k >= 1,
        n < pow128(k),
    ensures
        1 <= varint_size(n) <= k,
    decreases k,
{
    if n >= 128 {
        assert(pow128(1) == 128) by {
            reveal_with_fuel(pow128, 2);
        }
        assert(k >= 2);
        assert(pow128(k) == 128 * pow128((k - 1) as nat));
        assert(n / 128 < pow128((k - 1) as nat));
        lemma_varint_size_bound(n / 128, (k - 1) as nat);
    }
}

/// Every `u64` takes between one and ten bytes.
pub proof fn lemma_varint_size_range(n: u64)
    ensures
        1 <= varint_size(n) <= 10,
{
    assert(pow128(10) == 0x40_0000_0000_0000_0000) by {
        reveal_with_fuel(pow128, 11);
    }
    lemma_varint_size_bound(n, 10);
}

/// Reading one byte further adds that byte's payload, weighted by its place.
pub proof fn lemma_varint_value_step(s: Seq<u8>, len: nat)
    requires
        len < s.len(),
    ensures
        varint_value(s, len + 1) == varint_value(s, len) + (s[len as int] % 128) * pow128(len),
    decreases len,
{
    if len == 0 {
        reveal_with_fuel(varint_value, 2);
        assert(pow128(0) == 1);
        assert(varint_value(s, 1) == (s[0] % 128) as nat);
        assert(varint_value(s, 0) == 0);
    } else {
        let t = s.skip(1);
        lemma_varint_value_step(t, (len - 1) as nat);
        let a = varint_value(t, (len - 1) as nat) as int;
        let q = (s[len as int] % 128) as int;
        let w = pow128((len - 1) as nat) as int;
        assert(t[len - 1] == s[len as int]);
        assert(varint_value(t, len) == a + q * w);
        assert(varint_value(s, len + 1) == (s[0] % 128) + 128 * varint_value(t, len));
        assert(varint_value(s, len) == (s[0] % 128) + 128 * a);
        assert(pow128(len) == 128 * w);
        assert(128 * (a + q * w) == 128 * a + q * (128 * w)) by (nonlinear_arith);
        assert(q * pow128(len) == q * (128 * w));
    }
}

/// The payload sum of `len` bytes is below `128^len`.
pub proof fn lemma_varint_value_bound(s: Seq<u8>, len: nat)
    ensures
        varint_value(s, len) < pow128(len),
    decreases len,
{
    if len > 0 {
        lemma_varint_value_bound(s.skip(1), (len - 1) as nat);
    }
}

/// Every byte of an encoding but the last has the continuation bit, and the
/// last has not.
pub proof fn lemma_encode_shape(n: u64)
    ensures
        encode_varint(n).len() >= 1,
        encode_varint(n).last() < 128,
        forall|j: int| 0 <= j < encode_varint(n).len() - 1 ==> encode_varint(n)[j] >= 128,
    decreases n,
{
    if n >= 128 {
        lemma_encode_shape(n / 128);
        let head = seq![(n % 128 + 128) as u8];
        let rest = encode_varint(n / 128);
        assert(encode_varint(n) == head + rest);
        assert forall|j: int| 0 <= j < encode_varint(n).len() - 1 implies encode_varint(n)[j]
            >= 128 by {
            if j > 0 {
                assert(encode_varint(n)[j] == rest[j - 1]);
            }
        }
        assert(encode_varint(n).last() == rest.last());
    }
}

/// The payload sum of an encoding is the number that was encoded, whatever
/// follows the encoding.
pub proof fn lemma_encode_value(n: u64, rest: Seq<u8>)
    ensures
        varint_value(encode_varint(n) + rest, varint_size(n)) == n,
    decreases n,
{
    let s = encode_varint(n) + rest;
    if n < 128 {
        reveal_with_fuel(varint_value, 2);
        assert(s[0] == n as u8);
    } else {
        let tail = encode_varint(n / 128);
        lemma_encode_value(n / 128, rest);
        assert(s.skip(1) =~= tail + rest);
        assert(s[0] == (n % 128 + 128) as u8);
        assert(s[0] % 128 == n % 128);
    }
}

/// Reading what was written gives the number back, and the number of bytes
/// that the encoding takes, whatever follows the encoding.
pub proof fn lemma_decode_encode(n: u64, rest: Seq<u8>)
    ensures
        decode_varint(encode_varint(n) + rest) == Some((n, varint_size(n))),
{
    let code = encode_varint(n);
    let s = code + rest;
    lemma_encode_shape(n);
    lemma_varint_size_range(n);
    lemma_encode_value(n, rest);
    assert(s[code.len() - 1] == code.last());
    assert forall|j: int| 0 <= j < code.len() - 1 implies s[j] >= 128 by {
        assert(s[j] == code[j]);
    }
    assert(is_varint_of_len(s, code.len()));
    lemma_varint_end_is(s, code.len());
}

/// A number of at least `128^k` takes more than `k` bytes.
pub proof fn lemma_varint_size_lower(n: u64, k: nat)
    requires
        n >= pow128(k),
    ensures
        varint_size(n) > k,
    decreases k,
{
    if k > 0 {
        assert(pow128(k) == 128 * pow128((k - 1) as nat));
        assert(pow128((k - 1) as nat) >= 1) by {
            lemma_pow128_positive((k - 1) as nat);
        }
        assert(n >= 128);
        assert(n / 128 >= pow128((k - 1) as nat));
        lemma_varint_size_lower(n / 128, (k - 1) as nat);
    }
}

/// Powers of `128` are positive.
pub proof fn lemma_pow128_positive(k: nat)
    ensures
        pow128(k) >= 1,
    decreases k,
{
    if k > 0 {
        lemma_pow128_positive((k - 1) as nat);
    }
}

/// The varint law: decoding the encoding of `n` gives `n` and the length of
/// the encoding. The encoding takes one byte below `128`, two from `128` to
/// `16383`, and ten for the largest `u64`.
pub proof fn lemma_varint_law(n: u64)
    ensures
        decode_varint(encode_varint(n)) == Some((n, varint_size(n))),
        1 <= varint_size(n) <= 10,
        n < 128 ==> varint_size(n) == 1,
        128 <= n < 16384 ==> varint_size(n) == 2,
        n == u64::MAX ==> varint_size(n) == 10,
{
    lemma_decode_encode(n, Seq::empty());
    assert(encode_varint(n) + Seq::<u8>::empty() =~= encode_varint(n));
    lemma_varint_size_range(n);
    if 128 <= n < 16384 {
        assert(pow128(2) == 16384) by {
            reveal_with_fuel(pow128, 3);
        }
        lemma_varint_size_bound(n, 2);
    }
    if n == u64::MAX {
        assert(pow128(9) == 0x8000_0000_0000_0000) by {
            reveal_with_fuel(pow128, 10);
        }
        lemma_varint_size_lower(n, 9);
    }
}

proof fn lemma_shift_is_pow128(i: nat)
    requires
        i <= 9,
    ensures
        (1u64 << ((7 * i) as u64)) == pow128(i),
        pow128(i) <= 0x8000_0000_0000_0000,
    decreases i,
{
    if i == 0 {
        assert(1u64 << 0u64 == 1) by (bit_vector);
    } else {
        lemma_shift_is_pow128((i - 1) as nat);
        let s = (7 * (i - 1)) as u64;
        assert(s <= 56 ==> (1u64 << ((s + 7) as u64)) == 128 * (1u64 << s) && (1u64 << s)
            <= 0x0100_0000_0000_0000) by (bit_vector);
        assert((s + 7) as u64 == (7 * i) as u64);
    }
}

/// A decoded varint took between one and ten bytes of `s`, the last of
/// them without the continuation bit.
pub proof fn lemma_decode_bounds(s: Seq<u8>)
    ensures
        decode_varint(s) matches Some((_, len)) ==> is_varint_of_len(s, len),
{
}

/// The number of bytes that the encoding of `n` takes.
pub fn varu64_len(n: u64) -> (len: usize)
    ensures
        len == varint_size(n),
        1 <= len <= 10,
{
    let mut m: u64 = n;
    let mut len: usize = 1;
    proof {
        lemma_varint_size_range(n);
    }
    while m >= 0x80
        invariant
            len + varint_size(m) == varint_size(n) + 1,
            varint_size(n) <= 10,
            len >= 1,
        decreases m,
    {
        proof {
            assert(m >> 7u64 == m / 128) by (bit_vector);
        }
        m = m >> 7;
        len = len + 1;
    }
    len
}

/// Writes the encoding of `n` into `data` from index `pos` on and returns
/// the number of bytes written. The bytes around it stay as they were.
pub fn write_varu64_at(data: &mut [u8], pos: usize, n: u64) -> (len: usize)
    requires
        pos + varint_size(n) <= old(data)@.len(),
    ensures
        len == varint_size(n),
        final(data)@.len() == old(data)@.len(),
        final(data)@ == old(data)@.take(pos as int) + encode_varint(n) + old(data)@.skip(
            pos + len,
        ),
{
    let ghost code = encode_varint(n);
    let mut m: u64 = n;
    let mut i: usize = pos;
    proof {
        assert(code.skip(0) =~= code);
    }
    while m >= 0x80
        invariant
            pos <= i,
            i + varint_size(m) == pos + code.len(),
            code == encode_varint(n),
            pos + code.len() <= data@.len(),
            data@.len() == old(data)@.len(),
            code.skip(i - pos) == encode_varint(m),
            forall|j: int| 0 <= j < pos || i <= j < data@.len() ==> data@[j] == old(data)@[j],
            forall|j: int| 0 <= j < i - pos ==> data@[pos + j] == code[j],
        decreases m,
    {
        let ghost rest = encode_varint(m / 128);
        let low: u8 = (m & 0x7f) as u8;
        proof {
            assert(m & 0x7f == m % 128) by (bit_vector);
            assert(low < 128 ==> low | 0x80u8 == low + 128) by (bit_vector);
            assert(m >> 7u64 == m / 128) by (bit_vector);
            assert(encode_varint(m) == seq![(m % 128 + 128) as u8] + rest);
            assert(code[i - pos] == code.skip(i - pos)[0]);
            assert(code.skip(i - pos + 1) =~= code.skip(i - pos).skip(1));
            assert((seq![(m % 128 + 128) as u8] + rest).skip(1) =~= rest);
        }
        data[i] = low | 0x80;
        m = m >> 7;
        i = i + 1;
    }
    proof {
        assert(encode_varint(m) == seq![m as u8]);
        assert(code[i - pos] == code.skip(i - pos)[0]);
    }
    data[i] = m as u8;
    proof {
        assert(data@ =~= old(data)@.take(pos as int) + code + old(data)@.skip(pos + code.len()));
    }
    i + 1 - pos
}

/// Appends the encoding of `n` to `out`.
pub fn append_varu64(out: &mut Vec<u8>, n: u64)
    ensures
        final(out)@ == old(out)@ + encode_varint(n),
{
    let ghost code = encode_varint(n);
    let mut m: u64 = n;
    proof {
        assert(out@ + code.skip(0) =~= old(out)@ + code);
    }
    while m >= 0x80
        invariant
            out@ + encode_varint(m) == old(out)@ + code,
        decreases m,
    {
        let ghost rest = encode_varint(m / 128);
        let ghost before = out@;
        let low: u8 = (m & 0x7f) as u8;
        proof {
            assert(m & 0x7f == m % 128) by (bit_vector);
            assert(low < 128 ==> low | 0x80u8 == low + 128) by (bit_vector);
            assert(m >> 7u64 == m / 128) by (bit_vector);
            assert(encode_varint(m) == seq![(m % 128 + 128) as u8] + rest);
        }
        out.push(low | 0x80);
        m = m >> 7;
        proof {
            assert(out@ + rest =~= before + (seq![(low + 128) as u8] + rest));
        }
    }
    out.push(m as u8);
    proof {
        assert(encode_varint(m) == seq![m as u8]);
        assert(out@ =~= old(out)@ + code);
    }
}

/// Writes the encoding of `n` at the start of `data` and returns the number
/// of bytes written. `data` must have room for it.
pub fn write_varu64(data: &mut [u8], n: u64) -> (len: usize)
    requires
        varint_size(n) <= old(data)@.len(),
    ensures
        len == varint_size(n),
        final(data)@.len() == old(data)@.len(),
        final(data)@ == encode_varint(n) + old(data)@.skip(len as int),
{
    let len = write_varu64_at(data, 0, n);
    proof {
        assert(old(data)@.take(0) + encode_varint(n) =~= encode_varint(n));
    }
    len
}

/// Reads a varint from the start of `data`: the value and the number of
/// bytes it took. Gives `(0, 0)` where `data` does not start with a varint.
pub fn read_varu64(data: &[u8]) -> (r: (u64, usize))
    ensures
        match decode_varint(data@) {
            Some((value, len)) => r.0 == value && r.1 == len,
            None => r == (0u64, 0usize),
        },
{
    let mut n: u64 = 0;
    let mut shift: u32 = 0;
    let mut i: usize = 0;
    while i < data.len() && shift < 64
        invariant
            i <= data@.len(),
            i <= 10,
            shift == 7 * i,
            forall|j: int| 0 <= j < i ==> data@[j] >= 128,
            i <= 9 ==> n == varint_value(data@, i as nat),
        decreases data@.len() - i,
    {
        let b: u8 = data[i];
        let low: u64 = (b & 0x7f) as u64;
        let piece: u64 = low << shift;
        proof {
            assert(i <= 9);
            lemma_varint_value_step(data@, i as nat);
            lemma_varint_value_bound(data@, i as nat);
            lemma_shift_is_pow128(i as nat);
            assert(b & 0x7f == b % 128) by (bit_vector);
            let sh = shift as u64;
            assert(sh == (7 * i) as u64);
            if i <= 8 {
                assert(sh <= 56 && n < (1u64 << sh) && low < 128 ==> (n | (low << sh)) == n + low
                    * (1u64 << sh)) by (bit_vector);
                assert(low << shift == low << sh);
                assert(low * (1u64 << sh) == (data@[i as int] % 128) * pow128(i as nat));
                assert((n | piece) == varint_value(data@, (i + 1) as nat));
                lemma_varint_value_bound(data@, (i + 1) as nat);
                lemma_shift_is_pow128((i + 1) as nat);
            } else {
                assert(sh == 63);
                assert(n < 0x8000_0000_0000_0000u64 && low < 128 ==> (n | (low << 63u64)) == (n
                    + low * 0x8000_0000_0000_0000u64) % 0x1_0000_0000_0000_0000) by (bit_vector);
                assert(low << shift == low << 63u64);
                assert(pow128(9) == 0x8000_0000_0000_0000) by {
                    reveal_with_fuel(pow128, 10);
                }
                assert((n | piece) == varint_value(data@, (i + 1) as nat)
                    % 0x1_0000_0000_0000_0000);
            }
        }
        if b < 0x80 {
            proof {
                assert(is_varint_of_len(data@, (i + 1) as nat));
                lemma_varint_end_is(data@, (i + 1) as nat);
            }
            return (n | piece, i + 1);
        }
        n = n | piece;
        shift = shift + 7;
        i = i + 1;
    }
    proof {
        assert forall|len: nat| !is_varint_of_len(data@, len) by {
            if is_varint_of_len(data@, len) {
                assert(data@[len - 1] >= 128);
            }
        }
    }
    (0, 0)
}

} // verus!
