//! The binary storage form: a CBOR array `[version, currency, mantissa, scale]`
//! whose mantissa is the 16 big-endian bytes of a signed 128-bit integer.
use crate::text::error_text;
use vstd::prelude::*;

verus! {

pub open spec fn pow256(n: nat) -> nat
    decreases n,
{
    if n == 0 {
        1
    } else {
        256 * pow256((n - 1) as nat)
    }
}

/// The unsigned big-endian value of some bytes.
pub open spec fn be_unsigned(b: Seq<u8>) -> nat
    decreases b.len(),
{
    if b.len() == 0 {
        0
    } else {
        (be_unsigned(b.drop_last()) * 256 + b.last()) as nat
    }
}

/// The two's-complement value of 16 big-endian bytes, as `i128::from_be_bytes`
/// reads them.
pub open spec fn be_signed(b: Seq<u8>) -> int {
    let u = be_unsigned(b);
    if u >= 0x8000_0000_0000_0000_0000_0000_0000_0000 {
        u - 0x1_0000_0000_0000_0000_0000_0000_0000_0000
    } else {
        u as int
    }
}

proof fn lemma_be_unsigned_bound(b: Seq<u8>)
    ensures
        be_unsigned(b) < pow256(b.len()),
    decreases b.len(),
{
    if b.len() > 0 {
        lemma_be_unsigned_bound(b.drop_last());
        let x = be_unsigned(b.drop_last());
        let p = pow256(b.drop_last().len());
        assert(x * 256 + b.last() < p * 256) by (nonlinear_arith)
            requires
                x < p,
                b.last() < 256,
        ;
    }
}

proof fn lemma_pow256_16()
    ensures
        pow256(16) == 0x1_0000_0000_0000_0000_0000_0000_0000_0000,
{
    reveal_with_fuel(pow256, 17);
}

/// The 16 big-endian two's-complement bytes of `m`.
pub open spec fn be_bytes_spec(m: i128) -> Seq<u8> {
    choose|b: Seq<u8>| b.len() == 16 && be_signed(b) == m
}

/// Equal lengths and equal big-endian values mean equal bytes.
proof fn lemma_be_injective(a: Seq<u8>, b: Seq<u8>)
    requires
        a.len() == b.len(),
        be_unsigned(a) == be_unsigned(b),
    ensures
        a == b,
    decreases a.len(),
{
    if a.len() > 0 {
        let x = be_unsigned(a.drop_last());
        let y = be_unsigned(b.drop_last());
        assert(x * 256 + a.last() == y * 256 + b.last());
        assert(x == y && a.last() == b.last()) by (nonlinear_arith)
            requires
                x * 256 + a.last() == y * 256 + b.last(),
                0 <= a.last() < 256,
                0 <= b.last() < 256,
                x >= 0,
                y >= 0,
        ;
        lemma_be_injective(a.drop_last(), b.drop_last());
        assert(a =~= a.drop_last().push(a.last()));
        assert(b =~= b.drop_last().push(b.last()));
    } else {
        assert(a =~= b);
    }
}

/// 16 bytes with the same two's-complement value are the same bytes.
pub proof fn lemma_be_signed_injective(a: Seq<u8>, b: Seq<u8>)
    requires
        a.len() == 16,
        b.len() == 16,
        be_signed(a) == be_signed(b),
    ensures
        a == b,
{
    lemma_be_unsigned_bound(a);
    lemma_be_unsigned_bound(b);
    lemma_pow256_16();
    lemma_be_injective(a, b);
}

/// The 16 big-endian bytes of `m` in two's complement, as
/// `i128::to_be_bytes` writes them.
pub fn be_bytes_of(m: i128) -> (r: Vec<u8>)
    ensures
        r@.len() == 16,
        be_signed(r@) == m,
        r@ == be_bytes_spec(m),
{
    let u: u128 = if m >= 0 {
        m as u128
    } else {
        u128::MAX - ((-(m + 1)) as u128)
    };
    let mut rest: u128 = u;
    let mut out: Vec<u8> = Vec::new();
    let mut k: usize = 0;
    assert(pow256(0) == 1);
    assert(be_unsigned(out@) == 0);
    assert(u == rest * pow256(0) + be_unsigned(out@));
    while k < 16
        invariant
            k <= 16,
            out@.len() == k,
            u == rest * pow256(k as nat) + be_unsigned(out@),
            be_unsigned(out@) < pow256(k as nat),
        decreases 16 - k,
    {
        let byte = (rest % 256) as u8;
        let ghost old_out = out@;
        let ghost old_rest = rest;
        out.insert(0, byte);
        rest = rest / 256;
        proof {
            lemma_be_prepend(byte, old_out);
            assert(out@ == seq![byte] + old_out);
            let p = pow256(k as nat);
            assert(pow256((k + 1) as nat) == 256 * p);
            assert(old_rest == rest * 256 + byte);
            assert(u == rest * pow256((k + 1) as nat) + be_unsigned(out@)) by (nonlinear_arith)
                requires
                    u == old_rest * p + be_unsigned(old_out),
                    old_rest == rest * 256 + byte,
                    pow256((k + 1) as nat) == 256 * p,
                    be_unsigned(out@) == byte * p + be_unsigned(old_out),
            ;
            lemma_be_unsigned_bound(out@);
        }
        k = k + 1;
    }
    proof {
        lemma_pow256_16();
        lemma_be_unsigned_bound(out@);
        assert(rest == 0) by (nonlinear_arith)
            requires
                u == rest * pow256(16) + be_unsigned(out@),
                pow256(16) == 0x1_0000_0000_0000_0000_0000_0000_0000_0000,
                u <= u128::MAX,
                rest >= 0,
        ;
        assert(out@.len() == 16 && be_signed(out@) == m);
        let c = be_bytes_spec(m);
        lemma_be_signed_injective(out@, c);
    }
    out
}

/// Prepending a byte adds it at the highest position.
proof fn lemma_be_prepend(byte: u8, b: Seq<u8>)
    ensures
        be_unsigned(seq![byte] + b) == byte * pow256(b.len()) + be_unsigned(b),
    decreases b.len(),
{
    if b.len() == 0 {
        let s = seq![byte] + b;
        assert(s.drop_last() =~= Seq::<u8>::empty());
        assert(s.last() == byte);
        assert(be_unsigned(s) == be_unsigned(s.drop_last()) * 256 + s.last());
        assert(pow256(0) == 1);
    } else {
        let s = seq![byte] + b;
        assert(s.drop_last() =~= seq![byte] + b.drop_last());
        assert(s.last() == b.last());
        assert(be_unsigned(s) == be_unsigned(s.drop_last()) * 256 + s.last());
        assert(be_unsigned(b) == be_unsigned(b.drop_last()) * 256 + b.last());
        lemma_be_prepend(byte, b.drop_last());
        let p = pow256(b.drop_last().len());
        assert(pow256(b.len()) == 256 * p);
        assert(be_unsigned(s) == (byte * p + be_unsigned(b.drop_last())) * 256 + b.last());
        assert((byte * p + be_unsigned(b.drop_last())) * 256 + b.last() == byte * (256 * p) + (
        be_unsigned(b.drop_last()) * 256 + b.last())) by (nonlinear_arith);
    }
}

/// The signed integer of 16 big-endian bytes, as `i128::from_be_bytes` reads it.
pub fn i128_of_be(bytes: &[u8]) -> (r: i128)
    requires
        bytes@.len() == 16,
    ensures
        r == be_signed(bytes@),
{
    let mut acc: u128 = 0;
    let mut k: usize = 0;
    proof {
        lemma_pow256_16();
    }
    while k < 16
        invariant
            k <= 16,
            bytes@.len() == 16,
            acc == be_unsigned(bytes@.take(k as int)),
            pow256(16) == 0x1_0000_0000_0000_0000_0000_0000_0000_0000,
        decreases 16 - k,
    {
        proof {
            lemma_be_unsigned_bound(bytes@.take(k as int));
            lemma_pow256_mono(k as nat, 15);
            assert(acc * 256 + 255 < pow256(16)) by (nonlinear_arith)
                requires
                    acc < pow256(k as nat),
                    pow256(k as nat) <= pow256(15),
                    pow256(16) == 256 * pow256(15),
            ;
        }
        let ghost old_acc = acc;
        acc = acc * 256 + bytes[k] as u128;
        assert(bytes@.take(k + 1).drop_last() == bytes@.take(k as int));
        k = k + 1;
    }
    assert(bytes@.take(16) == bytes@);
    if acc >= 0x8000_0000_0000_0000_0000_0000_0000_0000u128 {
        -((u128::MAX - acc) as i128) - 1
    } else {
        acc as i128
    }
}

proof fn lemma_pow256_mono(a: nat, b: nat)
    requires
        a <= b,
    ensures
        pow256(a) <= pow256(b),
    decreases b,
{
    if a < b {
        lemma_pow256_mono(a, (b - 1) as nat);
    }
}

/// Where a received payload starts and how long it is, from the protocol
/// buffer's cursor and length; refused when the cursor is outside the buffer or
/// the payload is empty or longer than 128 bytes.
pub fn payload_bounds(cursor: i32, len: i32) -> (r: Result<(usize, usize), String>)
    ensures
        (cursor < 0 || len < cursor) ==> error_text(r) == Some("invalid protocol cursor"@),
        !(cursor < 0 || len < cursor) && (len - cursor == 0 || len - cursor > 128) ==> error_text(r)
            == Some("payload length must be between 1 and 128 bytes"@),
        r matches Ok((start, size)) ==> start == cursor && size == len - cursor && 1 <= size <= 128,
        !(cursor < 0 || len < cursor) && 1 <= len - cursor <= 128 ==> r == Ok::<
            (usize, usize),
            String,
        >((cursor as usize, (len - cursor) as usize)),
{
    if cursor < 0 || len < cursor {
        return Err("invalid protocol cursor".to_string());
    }
    let remaining = (len - cursor) as usize;
    if remaining == 0 || remaining > 128 {
        return Err("payload length must be between 1 and 128 bytes".to_string());
    }
    Ok((cursor as usize, remaining))
}

/// What `serde_cbor::to_vec` gives for the tuple `(version, code, bytes, scale)`,
/// with the bytes as a 16-element array.
pub uninterp spec fn cbor_storage_encoding(
    version: u8,
    code: Seq<char>,
    bytes: Seq<u8>,
    scale: u32,
) -> Result<Seq<u8>, Seq<char>>;

/// What serde_cbor's deserializer reads as `(u8, &str, [u8; 16], u32)` at the
/// start of the data (`Deserializer::from_slice`, then `Deserialize::deserialize`).
pub uninterp spec fn cbor_storage_decoding(data: Seq<u8>) -> Result<
    (u8, Seq<char>, Seq<u8>, u32),
    Seq<char>,
>;

/// The error serde_cbor's `Deserializer::end` reports when bytes follow the
/// storage tuple in the data, if any.
pub uninterp spec fn cbor_storage_trailing(data: Seq<u8>) -> Option<Seq<char>>;

pub open spec fn text_option_of(o: Option<String>) -> Option<Seq<char>> {
    match o {
        Some(s) => Some(s@),
        None => None,
    }
}

pub open spec fn bytes_result(r: Result<Vec<u8>, String>) -> Result<Seq<u8>, Seq<char>> {
    match r {
        Ok(b) => Ok(b@),
        Err(e) => Err(e@),
    }
}

pub open spec fn tuple_result(r: Result<((u8, String, Vec<u8>, u32), Option<String>), String>) -> Result<
    (u8, Seq<char>, Seq<u8>, u32),
    Seq<char>,
> {
    match r {
        Ok(((v, c, b, s), _)) => Ok((v, c@, b@, s)),
        Err(e) => Err(e@),
    }
}

pub open spec fn decoded_tuple(version: u8, code: Seq<char>, bytes: Seq<u8>, scale: u32) -> Result<
    (u8, Seq<char>, Seq<u8>, u32),
    Seq<char>,
> {
    Ok((version, code, bytes, scale))
}

/// Encodes the storage tuple with `serde_cbor::to_vec`. Trusted: the result
/// is the named encoding, and when it is produced, deserializing the same
/// tuple type from it gives the tuple back with no byte left over.
#[verifier::external_body]
pub(crate) fn cbor_encode_storage(version: u8, code: &str, bytes: &[u8], scale: u32) -> (r: Result<
    Vec<u8>,
    String,
>)
    requires
        bytes@.len() == 16,
    ensures
        bytes_result(r) == cbor_storage_encoding(version, code@, bytes@, scale),
        r matches Ok(b) ==> cbor_storage_decoding(b@) == decoded_tuple(version, code@, bytes@, scale)
            && cbor_storage_trailing(b@) is None,
{
    let array: [u8; 16] = bytes.try_into().unwrap();
    match serde_cbor::to_vec(&(version, code, array, scale)) {
        Ok(v) => Ok(v),
        Err(e) => Err(e.to_string()),
    }
}

/// Decodes the storage tuple at the start of the data with serde_cbor's
/// deserializer, then asks it whether bytes follow (`Deserializer::end`).
/// Trusted: the tuple is the named decoding, with 16 mantissa bytes, and the
/// second part is the named trailing-data error.
#[verifier::external_body]
pub(crate) fn cbor_decode_storage(data: &[u8]) -> (r: Result<
    ((u8, String, Vec<u8>, u32), Option<String>),
    String,
>)
    ensures
        tuple_result(r) == cbor_storage_decoding(data@),
        r matches Ok((t, trailing)) ==> t.2@.len() == 16 && text_option_of(trailing)
            == cbor_storage_trailing(data@),
{
    let mut de = serde_cbor::Deserializer::from_slice(data);
    let decoded: Result<(u8, &str, [u8; 16], u32), _> = serde::Deserialize::deserialize(&mut de);
    match decoded {
        Ok((v, c, b, s)) => Ok(((v, c.to_string(), b.to_vec(), s), de.end().err().map(|e| e.to_string()))),
        Err(e) => Err(e.to_string()),
    }
}

/// What `serde_cbor::to_vec` gives for the tuple `(version, code, minor_units)`.
pub uninterp spec fn cbor_minor_encoding(version: u8, code: Seq<char>, minor_units: i64) -> Result<
    Seq<u8>,
    Seq<char>,
>;

/// What serde_cbor's deserializer reads as `(u8, &str, i64)` at the start of
/// the data.
pub uninterp spec fn cbor_minor_decoding(data: Seq<u8>) -> Result<(u8, Seq<char>, i64), Seq<char>>;

/// The error serde_cbor's `Deserializer::end` reports when bytes follow the
/// minor-unit tuple in the data, if any.
pub uninterp spec fn cbor_minor_trailing(data: Seq<u8>) -> Option<Seq<char>>;

pub open spec fn minor_tuple_result(r: Result<((u8, String, i64), Option<String>), String>) -> Result<
    (u8, Seq<char>, i64),
    Seq<char>,
> {
    match r {
        Ok(((v, c, m), _)) => Ok((v, c@, m)),
        Err(e) => Err(e@),
    }
}

pub open spec fn decoded_minor_tuple(version: u8, code: Seq<char>, minor_units: i64) -> Result<
    (u8, Seq<char>, i64),
    Seq<char>,
> {
    Ok((version, code, minor_units))
}

/// Encodes the minor-unit storage tuple with `serde_cbor::to_vec`. Trusted:
/// the result is the named encoding, and when it is produced, deserializing
/// the same tuple type from it gives the tuple back with no byte left over.
#[verifier::external_body]
pub(crate) fn cbor_encode_minor(version: u8, code: &str, minor_units: i64) -> (r: Result<
    Vec<u8>,
    String,
>)
    ensures
        bytes_result(r) == cbor_minor_encoding(version, code@, minor_units),
        r matches Ok(b) ==> cbor_minor_decoding(b@) == decoded_minor_tuple(version, code@, minor_units)
            && cbor_minor_trailing(b@) is None,
{
    match serde_cbor::to_vec(&(version, code, minor_units)) {
        Ok(v) => Ok(v),
        Err(e) => Err(e.to_string()),
    }
}

/// Decodes the minor-unit storage tuple at the start of the data with
/// serde_cbor's deserializer, then asks it whether bytes follow
/// (`Deserializer::end`). Trusted: the tuple is the named decoding, and the
/// second part is the named trailing-data error.
#[verifier::external_body]
pub(crate) fn cbor_decode_minor(data: &[u8]) -> (r: Result<((u8, String, i64), Option<String>), String>)
    ensures
        minor_tuple_result(r) == cbor_minor_decoding(data@),
        r matches Ok((t, trailing)) ==> text_option_of(trailing) == cbor_minor_trailing(data@),
{
    let mut de = serde_cbor::Deserializer::from_slice(data);
    let decoded: Result<(u8, &str, i64), _> = serde::Deserialize::deserialize(&mut de);
    match decoded {
        Ok((v, c, m)) => Ok(((v, c.to_string(), m), de.end().err().map(|e| e.to_string()))),
        Err(e) => Err(e.to_string()),
    }
}

/// Final mixing of a 64-bit hash with a seed: xor with the seed, then the
/// SplitMix64 finalizer, all arithmetic modulo 2^64.
pub open spec fn mix_spec(hash: u64, seed: i64) -> i64 {
    let h1 = hash ^ (seed as u64);
    let h2 = ((h1 as int + 0x9e37_79b9_7f4a_7c15) % 0x1_0000_0000_0000_0000) as u64;
    let x2 = h2 ^ (h2 >> 30u64);
    let h3 = ((x2 as int * 0xbf58_476d_1ce4_e5b9) % 0x1_0000_0000_0000_0000) as u64;
    let x3 = h3 ^ (h3 >> 27u64);
    let h4 = ((x3 as int * 0x94d0_49bb_1331_11eb) % 0x1_0000_0000_0000_0000) as u64;
    (h4 ^ (h4 >> 31u64)) as i64
}

/// Mixes a value's 64-bit hash with a seed (the extended hash of the hash
/// operator family).
pub fn mix_hash(hash: u64, seed: i64) -> (r: i64)
    ensures
        r == mix_spec(hash, seed),
{
    let h1: u64 = hash ^ (seed as u64);
    let h2: u64 = ((h1 as u128 + 0x9e37_79b9_7f4a_7c15u128) % 0x1_0000_0000_0000_0000u128) as u64;
    let x2: u64 = h2 ^ (h2 >> 30u64);
    assert(x2 as int * 0xbf58_476d_1ce4_e5b9 < 0x1_0000_0000_0000_0000_0000_0000_0000_0000) by (
    nonlinear_arith)
        requires
            x2 < 0x1_0000_0000_0000_0000,
    ;
    let h3: u64 = ((x2 as u128 * 0xbf58_476d_1ce4_e5b9u128) % 0x1_0000_0000_0000_0000u128) as u64;
    let x3: u64 = h3 ^ (h3 >> 27u64);
    assert(x3 as int * 0x94d0_49bb_1331_11eb < 0x1_0000_0000_0000_0000_0000_0000_0000_0000) by (
    nonlinear_arith)
        requires
            x3 < 0x1_0000_0000_0000_0000,
    ;
    let h4: u64 = ((x3 as u128 * 0x94d0_49bb_1331_11ebu128) % 0x1_0000_0000_0000_0000u128) as u64;
    (h4 ^ (h4 >> 31u64)) as i64
}

} // verus!
