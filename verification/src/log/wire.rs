//! Byte-level encodings shared by the store, the index and the record
//! format: big-endian integers of fixed width and base-128 varints.

use byteorder::{BigEndian, ByteOrder};
use vstd::prelude::*;

verus! {

/// The eight bytes that spell `n`, most significant byte first.
pub open spec fn u64_be_bytes(n: u64) -> Seq<u8> {
    seq![
        ((n >> 56) & 0xff) as u8,
        ((n >> 48) & 0xff) as u8,
        ((n >> 40) & 0xff) as u8,
        ((n >> 32) & 0xff) as u8,
        ((n >> 24) & 0xff) as u8,
        ((n >> 16) & 0xff) as u8,
        ((n >> 8) & 0xff) as u8,
        (n & 0xff) as u8,
    ]
}

/// The number that the first eight bytes of `b` spell, most significant
/// byte first.
pub open spec fn u64_from_be(b: Seq<u8>) -> u64
    recommends
        b.len() >= 8,
{
    (b[0] as u64) << 56 | (b[1] as u64) << 48 | (b[2] as u64) << 40 | (b[3] as u64) << 32 | (
    b[4] as u64) << 24 | (b[5] as u64) << 16 | (b[6] as u64) << 8 | (b[7] as u64)
}

/// The four bytes that spell `n`, most significant byte first.
pub open spec fn u32_be_bytes(n: u32) -> Seq<u8> {
    seq![
        ((n >> 24) & 0xff) as u8,
        ((n >> 16) & 0xff) as u8,
        ((n >> 8) & 0xff) as u8,
        (n & 0xff) as u8,
    ]
}

/// The number that the first four bytes of `b` spell, most significant
/// byte first.
pub open spec fn u32_from_be(b: Seq<u8>) -> u32
    recommends
        b.len() >= 4,
{
    (b[0] as u32) << 24 | (b[1] as u32) << 16 | (b[2] as u32) << 8 | (b[3] as u32)
}

/// Reading back the bytes of a `u64` gives the number, whatever follows them.
pub proof fn lemma_u64_be_roundtrip(n: u64, rest: Seq<u8>)
    ensures
        u64_be_bytes(n).len() == 8,
        u64_from_be(u64_be_bytes(n) + rest) == n,
{
    let b0 = ((n >> 56) & 0xff) as u8;
    let b1 = ((n >> 48) & 0xff) as u8;
    let b2 = ((n >> 40) & 0xff) as u8;
    let b3 = ((n >> 32) & 0xff) as u8;
    let b4 = ((n >> 24) & 0xff) as u8;
    let b5 = ((n >> 16) & 0xff) as u8;
    let b6 = ((n >> 8) & 0xff) as u8;
    let b7 = (n & 0xff) as u8;
    let b = u64_be_bytes(n) + rest;
    assert(b[0] == b0 && b[1] == b1 && b[2] == b2 && b[3] == b3 && b[4] == b4 && b[5] == b5
        && b[6] == b6 && b[7] == b7);
    assert((b0 as u64) << 56 | (b1 as u64) << 48 | (b2 as u64) << 40 | (b3 as u64) << 32 | (
    b4 as u64) << 24 | (b5 as u64) << 16 | (b6 as u64) << 8 | (b7 as u64) == n) by (bit_vector)
        requires
            b0 == ((n >> 56) & 0xff) as u8,
            b1 == ((n >> 48) & 0xff) as u8,
            b2 == ((n >> 40) & 0xff) as u8,
            b3 == ((n >> 32) & 0xff) as u8,
            b4 == ((n >> 24) & 0xff) as u8,
            b5 == ((n >> 16) & 0xff) as u8,
            b6 == ((n >> 8) & 0xff) as u8,
            b7 == (n & 0xff) as u8,
    ;
}

/// Reading back the bytes of a `u32` gives the number, whatever follows them.
pub proof fn lemma_u32_be_roundtrip(n: u32, rest: Seq<u8>)
    ensures
        u32_be_bytes(n).len() == 4,
        u32_from_be(u32_be_bytes(n) + rest) == n,
{
    let b0 = ((n >> 24) & 0xff) as u8;
    let b1 = ((n >> 16) & 0xff) as u8;
    let b2 = ((n >> 8) & 0xff) as u8;
    let b3 = (n & 0xff) as u8;
    let b = u32_be_bytes(n) + rest;
    assert(b[0] == b0 && b[1] == b1 && b[2] == b2 && b[3] == b3);
    assert((b0 as u32) << 24 | (b1 as u32) << 16 | (b2 as u32) << 8 | (b3 as u32) == n)
        by (bit_vector)
        requires
            b0 == ((n >> 24) & 0xff) as u8,
            b1 == ((n >> 16) & 0xff) as u8,
            b2 == ((n >> 8) & 0xff) as u8,
            b3 == (n & 0xff) as u8,
    ;
}

/// A `u64` is zero exactly when all of its eight bytes are.
pub proof fn lemma_u64_from_be_zero(b: Seq<u8>)
    requires
        b.len() >= 8,
    ensures
        u64_from_be(b) == 0 <==> (b[0] == 0 && b[1] == 0 && b[2] == 0 && b[3] == 0 && b[4] == 0
            && b[5] == 0 && b[6] == 0 && b[7] == 0),
{
    let b0 = b[0];
    let b1 = b[1];
    let b2 = b[2];
    let b3 = b[3];
    let b4 = b[4];
    let b5 = b[5];
    let b6 = b[6];
    let b7 = b[7];
    assert(((b0 as u64) << 56 | (b1 as u64) << 48 | (b2 as u64) << 40 | (b3 as u64) << 32 | (
    b4 as u64) << 24 | (b5 as u64) << 16 | (b6 as u64) << 8 | (b7 as u64)) == 0 <==> (b0 == 0
        && b1 == 0 && b2 == 0 && b3 == 0 && b4 == 0 && b5 == 0 && b6 == 0 && b7 == 0))
        by (bit_vector);
}

/// A `u32` is zero exactly when all of its four bytes are.
pub proof fn lemma_u32_from_be_zero(b: Seq<u8>)
    requires
        b.len() >= 4,
    ensures
        u32_from_be(b) == 0 <==> (b[0] == 0 && b[1] == 0 && b[2] == 0 && b[3] == 0),
{
    let b0 = b[0];
    let b1 = b[1];
    let b2 = b[2];
    let b3 = b[3];
    assert(((b0 as u32) << 24 | (b1 as u32) << 16 | (b2 as u32) << 8 | (b3 as u32)) == 0 <==> (
    b0 == 0 && b1 == 0 && b2 == 0 && b3 == 0)) by (bit_vector);
}

/// Reads the big-endian `u64` that starts at `pos`.
pub fn read_u64_be(bytes: &Vec<u8>, pos: usize) -> (n: u64)
    requires
        pos + 8 <= bytes.len(),
    ensures
        n == u64_from_be(bytes@.subrange(pos as int, pos + 8)),
{
    let b0: u64 = bytes[pos] as u64;
    let b1: u64 = bytes[pos + 1] as u64;
    let b2: u64 = bytes[pos + 2] as u64;
    let b3: u64 = bytes[pos + 3] as u64;
    let b4: u64 = bytes[pos + 4] as u64;
    let b5: u64 = bytes[pos + 5] as u64;
    let b6: u64 = bytes[pos + 6] as u64;
    let b7: u64 = bytes[pos + 7] as u64;
    b0 << 56 | b1 << 48 | b2 << 40 | b3 << 32 | b4 << 24 | b5 << 16 | b6 << 8 | b7
}

/// Reads the big-endian `u32` that starts at `pos`.
pub fn read_u32_be(bytes: &Vec<u8>, pos: usize) -> (n: u32)
    requires
        pos + 4 <= bytes.len(),
    ensures
        n == u32_from_be(bytes@.subrange(pos as int, pos + 4)),
{
    let b0: u32 = bytes[pos] as u32;
    let b1: u32 = bytes[pos + 1] as u32;
    let b2: u32 = bytes[pos + 2] as u32;
    let b3: u32 = bytes[pos + 3] as u32;
    b0 << 24 | b1 << 16 | b2 << 8 | b3
}

/// Writes `n` big-endian over the four bytes that start at `pos`.
pub fn write_u32_be(buf: &mut Vec<u8>, pos: usize, n: u32)
    requires
        pos + 4 <= old(buf).len(),
    ensures
        final(buf)@ == old(buf)@.subrange(0, pos as int) + u32_be_bytes(n) + old(buf)@.subrange(
            pos + 4,
            old(buf)@.len() as int,
        ),
{
    buf.set(pos, ((n >> 24) & 0xff) as u8);
    buf.set(pos + 1, ((n >> 16) & 0xff) as u8);
    buf.set(pos + 2, ((n >> 8) & 0xff) as u8);
    buf.set(pos + 3, (n & 0xff) as u8);
    assert(buf@ =~= old(buf)@.subrange(0, pos as int) + u32_be_bytes(n) + old(buf)@.subrange(
        pos + 4,
        old(buf)@.len() as int,
    ));
}

/// Writes `n` big-endian over the eight bytes that start at `pos`.
pub fn write_u64_be(buf: &mut Vec<u8>, pos: usize, n: u64)
    requires
        pos + 8 <= old(buf).len(),
    ensures
        final(buf)@ == old(buf)@.subrange(0, pos as int) + u64_be_bytes(n) + old(buf)@.subrange(
            pos + 8,
            old(buf)@.len() as int,
        ),
{
    buf.set(pos, ((n >> 56) & 0xff) as u8);
    buf.set(pos + 1, ((n >> 48) & 0xff) as u8);
    buf.set(pos + 2, ((n >> 40) & 0xff) as u8);
    buf.set(pos + 3, ((n >> 32) & 0xff) as u8);
    buf.set(pos + 4, ((n >> 24) & 0xff) as u8);
    buf.set(pos + 5, ((n >> 16) & 0xff) as u8);
    buf.set(pos + 6, ((n >> 8) & 0xff) as u8);
    buf.set(pos + 7, (n & 0xff) as u8);
    assert(buf@ =~= old(buf)@.subrange(0, pos as int) + u64_be_bytes(n) + old(buf)@.subrange(
        pos + 8,
        old(buf)@.len() as int,
    ));
}

/// `byteorder::BigEndian::write_u64` on a fresh buffer of eight bytes:
/// the buffer then holds the bytes of `n`, most significant first.
#[verifier::external_body]
pub(crate) fn u64_to_be_vec(n: u64) -> (out: Vec<u8>)
    ensures
        out@ == u64_be_bytes(n),
{
    let mut buf = vec![0u8; 8];
    BigEndian::write_u64(&mut buf, n);
    buf
}

/// The base-128 varint of `n`: seven bits to a byte, least significant group
/// first, the top bit of a byte set while more bytes follow.
pub open spec fn varint_bytes(n: nat) -> Seq<u8>
    decreases n,
{
    if n < 128 {
        seq![n as u8]
    } else {
        seq![(n % 128 + 128) as u8] + varint_bytes(n / 128)
    }
}

/// The varint that starts `b`, read as the byte number `depth` of a varint:
/// its value and its length. A varint has at most ten bytes, and the tenth
/// may only hold the top bit of a `u64`.
pub open spec fn varint_parse(b: Seq<u8>, depth: nat) -> Option<(nat, nat)>
    decreases b.len(),
{
    if depth >= 10 || b.len() == 0 {
        None
    } else if b[0] < 128 {
        if depth == 9 && b[0] >= 2 {
            None
        } else {
            Some((b[0] as nat, 1nat))
        }
    } else {
        match varint_parse(b.skip(1), depth + 1) {
            Some((high, len)) => Some(((b[0] - 128 + 128 * high) as nat, len + 1)),
            None => None,
        }
    }
}

/// The varint at the start of `b`, if there is a valid one: value and length.
pub open spec fn varint_decode(b: Seq<u8>) -> Option<(nat, nat)> {
    varint_parse(b, 0)
}

/// The values that a varint may still hold from its byte number `depth` on.
pub open spec fn varint_room(depth: nat) -> nat
    decreases 9 - depth,
{
    if depth >= 9 {
        2
    } else {
        128 * varint_room(depth + 1)
    }
}

/// Every byte of a varint can at least hold the top bit of a `u64`.
pub proof fn lemma_varint_room_min(depth: nat)
    ensures
        varint_room(depth) >= 2,
    decreases 9 - depth,
{
    if depth < 9 {
        lemma_varint_room_min(depth + 1);
    }
}

/// A varint has between one and ten bytes.
pub proof fn lemma_varint_bytes_len(n: nat, depth: nat)
    requires
        depth <= 9,
        n < varint_room(depth),
    ensures
        1 <= varint_bytes(n).len() <= 10 - depth,
    decreases n,
{
    if n >= 128 {
        lemma_varint_bytes_len(n / 128, depth + 1);
    }
}

/// What `varint_parse` finds, it finds within `b`, and a value it returns
/// leaves room for the bytes before it.
pub proof fn lemma_varint_parse_bounds(b: Seq<u8>, depth: nat)
    ensures
        match varint_parse(b, depth) {
            Some((v, len)) => 1 <= len <= b.len() && len <= 10 - depth && v < varint_room(depth),
            None => true,
        },
    decreases b.len(),
{
    if depth < 10 && b.len() > 0 {
        if b[0] >= 128 {
            lemma_varint_parse_bounds(b.skip(1), depth + 1);
        } else if depth < 9 {
            lemma_varint_room_min(depth + 1);
        }
    }
}

/// Parsing the varint of `n` gives `n` back, whatever follows it.
pub proof fn lemma_varint_roundtrip_at(n: nat, depth: nat, rest: Seq<u8>)
    requires
        depth <= 9,
        n < varint_room(depth),
    ensures
        varint_parse(varint_bytes(n) + rest, depth) == Some((n, varint_bytes(n).len())),
    decreases n,
{
    let b = varint_bytes(n) + rest;
    if n < 128 {
        assert(b[0] == n as u8);
    } else {
        let tail = varint_bytes(n / 128);
        assert(b[0] == (n % 128 + 128) as u8);
        assert(b.skip(1) =~= tail + rest);
        lemma_varint_roundtrip_at(n / 128, depth + 1, rest);
    }
}

/// Decoding the varint of a `u64` gives the number back, whatever follows.
pub proof fn lemma_varint_roundtrip(n: u64, rest: Seq<u8>)
    ensures
        varint_decode(varint_bytes(n as nat) + rest) == Some(
            (n as nat, varint_bytes(n as nat).len()),
        ),
        1 <= varint_bytes(n as nat).len() <= 10,
{
    reveal_with_fuel(varint_room, 10);
    lemma_varint_roundtrip_at(n as nat, 0, rest);
    lemma_varint_bytes_len(n as nat, 0);
}

/// A decoded varint fits a `u64`.
pub proof fn lemma_varint_decode_bounds(b: Seq<u8>)
    ensures
        match varint_decode(b) {
            Some((v, len)) => 1 <= len <= b.len() && len <= 10 && v <= u64::MAX,
            None => true,
        },
{
    reveal_with_fuel(varint_room, 10);
    lemma_varint_parse_bounds(b, 0);
}

/// The error that `prost` reports for bytes it cannot decode.
#[verifier::external_type_specification]
#[verifier::external_body]
pub struct ExDecodeError(prost::DecodeError);

/// `prost::encoding::encode_varint` into a `Vec<u8>`: the varint of `value`
/// is appended to what the buffer held.
#[verifier::external_body]
pub(crate) fn put_varint(value: u64, buf: &mut Vec<u8>)
    ensures
        final(buf)@ == old(buf)@ + varint_bytes(value as nat),
{
    prost::encoding::encode_varint(value, buf)
}

/// `prost::encoding::decode_varint` on a byte slice. It succeeds exactly when
/// the slice starts with a valid varint, and then returns the varint's value
/// with the number of bytes that follow the varint in the slice.
#[verifier::external_body]
pub(crate) fn take_varint(bytes: &[u8]) -> (r: Result<(u64, usize), prost::DecodeError>)
    ensures
        match r {
            Ok((value, left)) => varint_decode(bytes@) == Some(
                (value as nat, (bytes@.len() - left) as nat),
            ) && left < bytes@.len(),
            Err(_) => varint_decode(bytes@) is None,
        },
{
    let mut rest: &[u8] = bytes;
    let value = prost::encoding::decode_varint(&mut rest)?;
    Ok((value, rest.len()))
}

} // verus!
