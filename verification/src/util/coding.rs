//! Fixed-width little-endian integers, LEB128-style varints and
//! length-prefixed byte strings.

use integer_encoding::FixedInt;
use integer_encoding::VarInt;
use vstd::prelude::*;

verus! {

/// Longest encoding of a 32-bit varint.
pub const MAX_VARINT_LEN_U32: usize = 5;

/// Longest encoding of a 64-bit varint.
pub const MAX_VARINT_LEN_U64: usize = 10;

/// The number that a byte string denotes when read as a little-endian integer.
pub open spec fn le_value(s: Seq<u8>) -> nat
    decreases s.len(),
{
    if s.len() == 0 {
        0
    } else {
        s[0] as nat + 256 * le_value(s.drop_first())
    }
}

/// The four bytes of `v`, least significant first.
pub open spec fn fixed32_bytes(v: u32) -> Seq<u8> {
    seq![
        (v % 256) as u8,
        (v / 256 % 256) as u8,
        (v / 256 / 256 % 256) as u8,
        (v / 256 / 256 / 256 % 256) as u8,
    ]
}

/// The eight bytes of `v`, least significant first.
pub open spec fn fixed64_bytes(v: u64) -> Seq<u8> {
    seq![
        (v % 256) as u8,
        (v / 256 % 256) as u8,
        (v / 256 / 256 % 256) as u8,
        (v / 256 / 256 / 256 % 256) as u8,
        (v / 256 / 256 / 256 / 256 % 256) as u8,
        (v / 256 / 256 / 256 / 256 / 256 % 256) as u8,
        (v / 256 / 256 / 256 / 256 / 256 / 256 % 256) as u8,
        (v / 256 / 256 / 256 / 256 / 256 / 256 / 256 % 256) as u8,
    ]
}

/// The varint encoding of `v`: seven bits per byte, least significant group
/// first, the top bit set on every byte but the last.
pub open spec fn varint_bytes(v: nat) -> Seq<u8>
    decreases v,
{
    if v < 128 {
        seq![v as u8]
    } else {
        seq![(v % 128 + 128) as u8] + varint_bytes(v / 128)
    }
}

/// The number spelled by the low seven bits of each byte, least significant
/// group first.
pub open spec fn varint_value(s: Seq<u8>) -> nat
    decreases s.len(),
{
    if s.len() == 0 {
        0
    } else {
        (s[0] % 128) as nat + 128 * varint_value(s.drop_first())
    }
}

/// The length of the shortest prefix that ends in a byte below 128, if any
/// byte is below 128.
pub open spec fn varint_len(s: Seq<u8>) -> Option<nat>
    decreases s.len(),
{
    if s.len() == 0 {
        None
    } else if s[0] < 128 {
        Some(1)
    } else {
        match varint_len(s.drop_first()) {
            Some(n) => Some(n + 1),
            None => None,
        }
    }
}

/// What decoding a varint from the front of `s` gives: the value, reduced
/// modulo `modulus`, and the number of bytes read. Nothing is decoded when no
/// byte among the first ten is below 128.
pub open spec fn decode_varint(s: Seq<u8>, modulus: nat) -> Option<(nat, nat)> {
    match varint_len(s) {
        Some(n) => if n <= 10 {
            Some((varint_value(s.subrange(0, n as int)) % modulus, n))
        } else {
            None
        },
        None => None,
    }
}

/// What decoding a 32-bit varint from the front of `s` gives.
pub open spec fn decode_varint32(s: Seq<u8>) -> Option<(nat, nat)> {
    decode_varint(s, 0x1_0000_0000)
}

/// What decoding a 64-bit varint from the front of `s` gives.
pub open spec fn decode_varint64(s: Seq<u8>) -> Option<(nat, nat)> {
    decode_varint(s, 0x1_0000_0000_0000_0000)
}

/// `n` zero bytes.
pub open spec fn zeros(n: nat) -> Seq<u8> {
    Seq::new(n, |i: int| 0u8)
}

/// A byte string behind its length as a 32-bit varint.
pub open spec fn length_prefixed(s: Seq<u8>) -> Seq<u8> {
    varint_bytes(s.len()) + s
}

/// The byte string that a length prefix at the front of `s` delimits, if the
/// prefix decodes and the string is long enough.
pub open spec fn length_prefixed_slice(s: Seq<u8>) -> Option<Seq<u8>> {
    match decode_varint32(s) {
        Some((len, size)) => if size + len <= s.len() {
            Some(s.subrange(size as int, (size + len) as int))
        } else {
            None
        },
        None => None,
    }
}

/// Calls `FixedInt::encode_fixed_vec` of integer-encoding on a `u32`: the
/// result is the value's four bytes, least significant first.
#[verifier::external_body]
fn fixed_vec_u32(value: u32) -> (r: Vec<u8>)
    ensures
        r@ == fixed32_bytes(value),
{
    value.encode_fixed_vec()
}

/// Calls `FixedInt::encode_fixed_vec` of integer-encoding on a `u64`: the
/// result is the value's eight bytes, least significant first.
#[verifier::external_body]
fn fixed_vec_u64(value: u64) -> (r: Vec<u8>)
    ensures
        r@ == fixed64_bytes(value),
{
    value.encode_fixed_vec()
}

/// Calls `FixedInt::decode_fixed` of integer-encoding for `u32`: four bytes
/// read as a little-endian integer.
#[verifier::external_body]
fn fixed_value_u32(src: &[u8]) -> (r: u32)
    requires
        src@.len() == 4,
    ensures
        r as nat == le_value(src@),
{
    u32::decode_fixed(src)
}

/// Calls `FixedInt::decode_fixed` of integer-encoding for `u64`: eight bytes
/// read as a little-endian integer.
#[verifier::external_body]
fn fixed_value_u64(src: &[u8]) -> (r: u64)
    requires
        src@.len() == 8,
    ensures
        r as nat == le_value(src@),
{
    u64::decode_fixed(src)
}

/// Calls `VarInt::encode_var_vec` of integer-encoding on a `u32`: the result
/// is the varint encoding of the value.
#[verifier::external_body]
fn var_vec_u32(value: u32) -> (r: Vec<u8>)
    ensures
        r@ == varint_bytes(value as nat),
{
    value.encode_var_vec()
}

/// Calls `VarInt::encode_var_vec` of integer-encoding on a `u64`: the result
/// is the varint encoding of the value.
#[verifier::external_body]
fn var_vec_u64(value: u64) -> (r: Vec<u8>)
    ensures
        r@ == varint_bytes(value as nat),
{
    value.encode_var_vec()
}

/// Calls `VarInt::decode_var` of integer-encoding for `u32`: it reads up to
/// the first byte below 128, fails when there is none among the first ten
/// bytes, and keeps the low 32 bits of the seven-bit groups it read.
#[verifier::external_body]
fn var_value_u32(src: &[u8]) -> (r: Option<(u32, usize)>)
    ensures
        match r {
            Some((v, n)) => decode_varint32(src@) == Some((v as nat, n as nat)),
            None => decode_varint32(src@).is_none(),
        },
{
    u32::decode_var(src)
}

/// Calls `VarInt::decode_var` of integer-encoding for `u64`: it reads up to
/// the first byte below 128, fails when there is none among the first ten
/// bytes, and keeps the low 64 bits of the seven-bit groups it read.
#[verifier::external_body]
fn var_value_u64(src: &[u8]) -> (r: Option<(u64, usize)>)
    ensures
        match r {
            Some((v, n)) => decode_varint64(src@) == Some((v as nat, n as nat)),
            None => decode_varint64(src@).is_none(),
        },
{
    u64::decode_var(src)
}

/// Reading back the four bytes of a value gives the value.
pub proof fn lemma_fixed32_value(v: u32)
    ensures
        le_value(fixed32_bytes(v)) == v,
        fixed32_bytes(v).len() == 4,
{
    let s = fixed32_bytes(v);
    let s1 = s.drop_first();
    let s2 = s1.drop_first();
    let s3 = s2.drop_first();
    let s4 = s3.drop_first();
    assert(s4.len() == 0);
    assert(le_value(s4) == 0);
    assert(le_value(s3) == s3[0] as nat + 256 * le_value(s4));
    assert(le_value(s2) == s2[0] as nat + 256 * le_value(s3));
    assert(le_value(s1) == s1[0] as nat + 256 * le_value(s2));
    assert(le_value(s) == s[0] as nat + 256 * le_value(s1));
}

/// Reading back the eight bytes of a value gives the value.
#[verifier::rlimit(60)]
pub proof fn lemma_fixed64_value(v: u64)
    ensures
        le_value(fixed64_bytes(v)) == v,
        fixed64_bytes(v).len() == 8,
{
    let s = fixed64_bytes(v);
    let s1 = s.drop_first();
    let s2 = s1.drop_first();
    let s3 = s2.drop_first();
    let s4 = s3.drop_first();
    let s5 = s4.drop_first();
    let s6 = s5.drop_first();
    let s7 = s6.drop_first();
    let s8 = s7.drop_first();
    assert(s8.len() == 0);
    assert(le_value(s8) == 0);
    assert(le_value(s7) == s7[0] as nat + 256 * le_value(s8));
    assert(le_value(s6) == s6[0] as nat + 256 * le_value(s7));
    assert(le_value(s5) == s5[0] as nat + 256 * le_value(s6));
    assert(le_value(s4) == s4[0] as nat + 256 * le_value(s5));
    assert(le_value(s3) == s3[0] as nat + 256 * le_value(s4));
    assert(le_value(s2) == s2[0] as nat + 256 * le_value(s3));
    assert(le_value(s1) == s1[0] as nat + 256 * le_value(s2));
    assert(le_value(s) == s[0] as nat + 256 * le_value(s1));
}

/// Zero bytes behind a little-endian integer do not change it.
pub proof fn lemma_le_value_zeros(s: Seq<u8>, n: nat)
    ensures
        le_value(s + zeros(n)) == le_value(s),
    decreases s.len() + n,
{
    let t = s + zeros(n);
    if s.len() == 0 {
        if n > 0 {
            assert(t.drop_first() =~= Seq::<u8>::empty() + zeros((n - 1) as nat));
            lemma_le_value_zeros(Seq::<u8>::empty(), (n - 1) as nat);
            assert(s =~= Seq::<u8>::empty());
        } else {
            assert(t =~= s);
        }
    } else {
        assert(t.drop_first() =~= s.drop_first() + zeros(n));
        lemma_le_value_zeros(s.drop_first(), n);
    }
}

/// The varint encoding of a value is at least one byte long, at most five for
/// a 32-bit value and at most ten for a 64-bit value.
pub proof fn lemma_varint_bytes_len(v: nat)
    ensures
        1 <= varint_bytes(v).len(),
        v < 0x80 ==> varint_bytes(v).len() == 1,
        v < 0x1_0000_0000 ==> varint_bytes(v).len() <= 5,
        v < 0x1_0000_0000_0000_0000 ==> varint_bytes(v).len() <= 10,
{
    reveal_with_fuel(varint_bytes, 11);
}

/// Decoding reads back what encoding wrote, whatever follows it.
#[verifier::rlimit(60)]
pub proof fn lemma_varint_round_trip(v: nat, rest: Seq<u8>)
    ensures
        varint_len(varint_bytes(v) + rest) == Some(varint_bytes(v).len()),
        varint_value(varint_bytes(v)) == v,
        (varint_bytes(v) + rest).subrange(0, varint_bytes(v).len() as int) == varint_bytes(v),
    decreases v,
{
    let e = varint_bytes(v);
    let t = e + rest;
    assert(t.subrange(0, e.len() as int) =~= e);
    if v < 128 {
        assert(e.drop_first().len() == 0);
        assert(varint_value(e.drop_first()) == 0);
    } else {
        let tail = varint_bytes(v / 128);
        lemma_varint_round_trip(v / 128, rest);
        assert(e.drop_first() =~= tail);
        assert(t.drop_first() =~= tail + rest);
        assert(t[0] == e[0]);
        assert(e[0] >= 128);
        assert(e[0] % 128 == v % 128);
    }
}

/// A 32-bit value decodes from its encoding, whatever follows it.
pub proof fn lemma_decode_encoded32(v: u32, rest: Seq<u8>)
    ensures
        decode_varint32(varint_bytes(v as nat) + rest) == Some(
            (v as nat, varint_bytes(v as nat).len()),
        ),
{
    lemma_varint_round_trip(v as nat, rest);
    lemma_varint_bytes_len(v as nat);
}

/// A 64-bit value decodes from its encoding, whatever follows it.
pub proof fn lemma_decode_encoded64(v: u64, rest: Seq<u8>)
    ensures
        decode_varint64(varint_bytes(v as nat) + rest) == Some(
            (v as nat, varint_bytes(v as nat).len()),
        ),
{
    lemma_varint_round_trip(v as nat, rest);
    lemma_varint_bytes_len(v as nat);
}

/// A decoded varint took at least one byte and no more than there are.
pub proof fn lemma_varint_len_bound(s: Seq<u8>)
    ensures
        match varint_len(s) {
            Some(n) => 1 <= n <= s.len(),
            None => true,
        },
    decreases s.len(),
{
    if s.len() > 0 && s[0] >= 128 {
        lemma_varint_len_bound(s.drop_first());
    }
}

/// A length-prefixed string is read back from its encoding, whatever follows.
pub proof fn lemma_length_prefixed_round_trip(s: Seq<u8>, rest: Seq<u8>)
    requires
        s.len() <= u32::MAX,
    ensures
        length_prefixed_slice(length_prefixed(s) + rest) == Some(s),
{
    let p = varint_bytes(s.len());
    let v: u32 = s.len() as u32;
    assert(length_prefixed(s) + rest =~= p + (s + rest));
    lemma_decode_encoded32(v, s + rest);
    assert((p + (s + rest)).subrange(p.len() as int, (p.len() + s.len()) as int) =~= s);
}

/// Appends `src` to `dst`.
pub fn append_bytes(dst: &mut Vec<u8>, src: &[u8])
    ensures
        final(dst)@ == old(dst)@ + src@,
{
    let mut i: usize = 0;
    while i < src.len()
        invariant
            i <= src@.len(),
            dst@ == old(dst)@ + src@.subrange(0, i as int),
        decreases src@.len() - i,
    {
        dst.push(src[i]);
        proof {
            assert(src@.subrange(0, i + 1) =~= src@.subrange(0, i as int).push(src@[i as int]));
        }
        i += 1;
    }
    proof {
        assert(src@.subrange(0, i as int) =~= src@);
    }
}

/// Copies a byte string.
pub fn copy_bytes(src: &[u8]) -> (r: Vec<u8>)
    ensures
        r@ == src@,
{
    let mut r: Vec<u8> = Vec::new();
    append_bytes(&mut r, src);
    proof {
        assert(Seq::<u8>::empty() + src@ =~= src@);
    }
    r
}

/// Decodes a 32-bit varint from the front of `key`: the value and the number
/// of bytes it took. `p` and `limit` are not consulted.
pub fn get_varint_32_prefix_ptr(p: usize, limit: usize, key: &[u8]) -> (r: Option<(u32, usize)>)
    ensures
        match r {
            Some((v, n)) => decode_varint32(key@) == Some((v as nat, n as nat)) && 1 <= n
                <= key@.len(),
            None => decode_varint32(key@).is_none(),
        },
{
    proof {
        lemma_varint_len_bound(key@);
    }
    var_value_u32(key)
}

/// Appends the eight bytes of `value`, least significant first.
pub fn put_fixed_64(dst: &mut Vec<u8>, value: u64)
    ensures
        final(dst)@ == old(dst)@ + fixed64_bytes(value),
{
    let bytes = fixed_vec_u64(value);
    append_bytes(dst, bytes.as_slice());
}

/// Appends the four bytes of `value`, least significant first.
pub fn put_fixed_32(dst: &mut Vec<u8>, value: u32)
    ensures
        final(dst)@ == old(dst)@ + fixed32_bytes(value),
{
    let bytes = fixed_vec_u32(value);
    append_bytes(dst, bytes.as_slice());
}

/// Writes the four bytes of `value` over the front of `dst`.
pub fn encode_fixed_32(dst: &mut [u8], value: u32)
    requires
        old(dst)@.len() >= 4,
    ensures
        final(dst)@ == fixed32_bytes(value) + old(dst)@.subrange(4, old(dst)@.len() as int),
{
    let bytes = fixed_vec_u32(value);
    let mut i: usize = 0;
    while i < 4
        invariant
            i <= 4,
            bytes@ == fixed32_bytes(value),
            dst@.len() == old(dst)@.len(),
            dst@.len() >= 4,
            forall|j: int| 0 <= j < i ==> dst@[j] == bytes@[j],
            forall|j: int| i <= j < dst@.len() ==> dst@[j] == old(dst)@[j],
        decreases 4 - i,
    {
        dst[i] = bytes[i];
        i += 1;
    }
    proof {
        assert(dst@ =~= fixed32_bytes(value) + old(dst)@.subrange(4, old(dst)@.len() as int));
    }
}

/// Writes the eight bytes of `value` over the front of `dst`.
pub fn encode_fixed_64(dst: &mut [u8], value: u64)
    requires
        old(dst)@.len() >= 8,
    ensures
        final(dst)@ == fixed64_bytes(value) + old(dst)@.subrange(8, old(dst)@.len() as int),
{
    let bytes = fixed_vec_u64(value);
    let mut i: usize = 0;
    while i < 8
        invariant
            i <= 8,
            bytes@ == fixed64_bytes(value),
            dst@.len() == old(dst)@.len(),
            dst@.len() >= 8,
            forall|j: int| 0 <= j < i ==> dst@[j] == bytes@[j],
            forall|j: int| i <= j < dst@.len() ==> dst@[j] == old(dst)@[j],
        decreases 8 - i,
    {
        dst[i] = bytes[i];
        i += 1;
    }
    proof {
        assert(dst@ =~= fixed64_bytes(value) + old(dst)@.subrange(8, old(dst)@.len() as int));
    }
}

/// Appends the varint encoding of `value`.
pub fn put_varint_32(dst: &mut Vec<u8>, value: u32)
    ensures
        final(dst)@ == old(dst)@ + varint_bytes(value as nat),
{
    let bytes = var_vec_u32(value);
    append_bytes(dst, bytes.as_slice());
}

/// Appends the varint encoding of `value`.
pub fn put_varint_64(dst: &mut Vec<u8>, value: u64)
    ensures
        final(dst)@ == old(dst)@ + varint_bytes(value as nat),
{
    let bytes = var_vec_u64(value);
    append_bytes(dst, bytes.as_slice());
}

/// The number of bytes in the varint encoding of `value`.
#[verifier::rlimit(60)]
pub fn varint_length(value: usize) -> (len: usize)
    ensures
        len == varint_bytes(value as nat).len(),
{
    let mut len: usize = 1;
    let mut rest: usize = value;
    proof {
        assert(pow128(0) == 1);
        assert(rest as nat * 1 == rest as nat);
    }
    while rest >= 128
        invariant
            1 <= len <= 10,
            varint_bytes(value as nat).len() == len - 1 + varint_bytes(rest as nat).len(),
            rest as nat * pow128(len - 1) <= usize::MAX,
        decreases rest,
    {
        proof {
            assert(varint_bytes(rest as nat).len() == 1 + varint_bytes((rest / 128) as nat).len());
            lemma_pow128_step(rest as nat, len - 1);
        }
        rest = rest / 128;
        len += 1;
    }
    len
}

/// 128 to the power `n`.
pub open spec fn pow128(n: int) -> nat
    decreases n,
{
    if n <= 0 {
        1
    } else {
        128 * pow128(n - 1)
    }
}

proof fn lemma_pow128_step(rest: nat, n: int)
    requires
        rest >= 128,
        n >= 0,
        rest * pow128(n) <= usize::MAX,
    ensures
        (rest / 128) * pow128(n + 1) <= usize::MAX,
        n + 1 <= 9,
{
    let q = rest / 128;
    assert(q * 128 <= rest);
    assert(pow128(n + 1) == 128 * pow128(n));
    assert(q * pow128(n + 1) == (q * 128) * pow128(n)) by (nonlinear_arith)
        requires
            pow128(n + 1) == 128 * pow128(n),
    ;
    assert((q * 128) * pow128(n) <= rest * pow128(n)) by (nonlinear_arith)
        requires
            q * 128 <= rest,
    ;
    if n + 1 > 9 {
        reveal_with_fuel(pow128, 11);
        assert(pow128(n) >= pow128(9)) by {
            lemma_pow128_monotonic(9, n);
        }
        assert(pow128(9) == 0x8000_0000_0000_0000);
        assert(rest * pow128(n) >= 128 * pow128(n)) by (nonlinear_arith)
            requires
                rest >= 128,
        ;
        assert(false);
    }
}

proof fn lemma_pow128_monotonic(a: int, b: int)
    requires
        0 <= a <= b,
    ensures
        pow128(a) <= pow128(b),
    decreases b - a,
{
    if a < b {
        lemma_pow128_monotonic(a, b - 1);
    }
}

/// Appends the length of `value` as a 32-bit varint, then `value`.
pub fn put_length_prefixed_slice(dst: &mut Vec<u8>, value: &[u8])
    requires
        value@.len() <= u32::MAX,
    ensures
        final(dst)@ == old(dst)@ + length_prefixed(value@),
{
    put_varint_32(dst, value.len() as u32);
    append_bytes(dst, value);
    proof {
        assert(old(dst)@ + varint_bytes(value@.len()) + value@ =~= old(dst)@ + length_prefixed(
            value@,
        ));
    }
}

/// The byte range of `data` that the length prefix at its front delimits:
/// start and end offsets.
pub fn length_prefixed_range(data: &[u8]) -> (r: Option<(usize, usize)>)
    ensures
        match r {
            Some((start, end)) => start <= end <= data@.len() && length_prefixed_slice(data@)
                == Some(data@.subrange(start as int, end as int)) && decode_varint32(data@)
                == Some(((end - start) as nat, start as nat)),
            None => length_prefixed_slice(data@).is_none(),
        },
{
    match get_varint_32_prefix_ptr(0, data.len(), data) {
        Some((len, size)) => {
            if len as usize <= data.len() - size {
                Some((size, size + len as usize))
            } else {
                None
            }
        },
        None => None,
    }
}

/// The byte string that the length prefix at the front of `data` delimits,
/// where there is one.
pub fn extract_length_prefixed_slice(data: &[u8]) -> (r: &[u8])
    requires
        length_prefixed_slice(data@).is_some(),
    ensures
        Some(r@) == length_prefixed_slice(data@),
{
    match length_prefixed_range(data) {
        Some((start, end)) => &data[start..end],
        None => data,
    }
}

/// The byte string that the length prefix at the front of `data` delimits.
/// `None` when the prefix does not decode or promises more bytes than follow.
pub fn get_length_prefixed_slice(data: &[u8]) -> (r: Option<Vec<u8>>)
    ensures
        match r {
            Some(v) => length_prefixed_slice(data@) == Some(v@),
            None => length_prefixed_slice(data@).is_none(),
        },
{
    match length_prefixed_range(data) {
        Some((start, end)) => Some(copy_bytes(&data[start..end])),
        None => None,
    }
}

/// Decodes a 32-bit varint from the front of `input`: the value and the
/// number of bytes it took.
pub fn get_varint_32(input: &[u8]) -> (r: Option<(u32, usize)>)
    ensures
        match r {
            Some((v, n)) => decode_varint32(input@) == Some((v as nat, n as nat)) && 1 <= n
                <= input@.len(),
            None => decode_varint32(input@).is_none(),
        },
{
    proof {
        lemma_varint_len_bound(input@);
    }
    var_value_u32(input)
}

/// Decodes a 64-bit varint from the front of `input`: the value and the
/// number of bytes it took.
pub fn get_varint_64(input: &[u8]) -> (r: Option<(u64, usize)>)
    ensures
        match r {
            Some((v, n)) => decode_varint64(input@) == Some((v as nat, n as nat)) && 1 <= n
                <= input@.len(),
            None => decode_varint64(input@).is_none(),
        },
{
    proof {
        lemma_varint_len_bound(input@);
    }
    var_value_u64(input)
}

/// Reads exactly four bytes as a little-endian integer.
pub fn get_fixed_32(input: &[u8]) -> (r: u32)
    requires
        input@.len() == 4,
    ensures
        r as nat == le_value(input@),
{
    fixed_value_u32(input)
}

/// Reads exactly eight bytes as a little-endian integer.
pub fn get_fixed_64(input: &[u8]) -> (r: u64)
    requires
        input@.len() == 8,
    ensures
        r as nat == le_value(input@),
{
    fixed_value_u64(input)
}

/// `input` followed by zero bytes up to `width` bytes in all.
fn zero_padded(input: &[u8], width: usize) -> (r: Vec<u8>)
    requires
        input@.len() < width,
    ensures
        r@ == input@ + zeros((width - input@.len()) as nat),
{
    let mut r = copy_bytes(input);
    while r.len() < width
        invariant
            input@.len() <= r@.len() <= width,
            r@ == input@ + zeros((r@.len() - input@.len()) as nat),
        decreases width - r@.len(),
    {
        let ghost before = r@;
        r.push(0u8);
        proof {
            assert(r@ =~= input@ + zeros((r@.len() - input@.len()) as nat));
        }
    }
    r
}

/// Reads the first four bytes of `input` as a little-endian integer; a
/// shorter input is read as if zero bytes followed it.
pub fn decode_fixed_32(input: &[u8]) -> (r: u32)
    ensures
        input@.len() >= 4 ==> r as nat == le_value(input@.subrange(0, 4)),
        input@.len() < 4 ==> r as nat == le_value(input@),
{
    if input.len() < 4 {
        let padded = zero_padded(input, 4);
        proof {
            lemma_le_value_zeros(input@, (4 - input@.len()) as nat);
        }
        fixed_value_u32(padded.as_slice())
    } else {
        fixed_value_u32(&input[0..4])
    }
}

/// Reads the first eight bytes of `input` as a little-endian integer; a
/// shorter input is read as if zero bytes followed it.
pub fn decode_fixed_64(input: &[u8]) -> (r: u64)
    ensures
        input@.len() >= 8 ==> r as nat == le_value(input@.subrange(0, 8)),
        input@.len() < 8 ==> r as nat == le_value(input@),
{
    if input.len() < 8 {
        let padded = zero_padded(input, 8);
        proof {
            lemma_le_value_zeros(input@, (8 - input@.len()) as nat);
        }
        fixed_value_u64(padded.as_slice())
    } else {
        fixed_value_u64(&input[0..8])
    }
}

} // verus!
