//! The record and its serialized form: a sequence of tagged fields, each a
//! varint key followed by a varint or by a length and that many bytes. The
//! payload is field 1, the offset field 2; a field that holds its default
//! (no bytes, zero) is left out, and fields may come in any order.

use crate::log::error::LogError;
use crate::log::wire::{
    lemma_varint_decode_bounds, lemma_varint_roundtrip, put_varint, take_varint, varint_bytes,
    varint_decode,
};
use vstd::prelude::*;
use vstd::slice::{slice_subrange, slice_to_vec};

verus! {

/// An opaque payload and the offset that the log assigned to it.
#[derive(Debug)]
pub struct Record {
    pub value: Vec<u8>,
    pub offset: u64,
}

/// A record as a mathematical value.
pub struct RecordView {
    pub value: Seq<u8>,
    pub offset: u64,
}

impl View for Record {
    type V = RecordView;

    /// The record as a mathematical value.
    open spec fn view(&self) -> RecordView {
        RecordView { value: self.value@, offset: self.offset }
    }
}

/// The record with no payload at offset zero.
pub open spec fn empty_record() -> RecordView {
    RecordView { value: Seq::empty(), offset: 0 }
}

impl Default for Record {
    /// The record with no payload at offset zero.
    fn default() -> (r: Record)
        ensures
            r@ == empty_record(),
    {
        Record { value: Vec::new(), offset: 0 }
    }
}

impl Clone for Record {
    /// A copy of the record.
    fn clone(&self) -> (r: Record)
        ensures
            r@ == self@,
    {
        Record { value: self.value.clone(), offset: self.offset }
    }
}

/// Key of the payload field: tag 1, length-delimited.
pub const KEY_VALUE: u64 = 10;

/// Key of the offset field: tag 2, varint.
pub const KEY_OFFSET: u64 = 16;

/// The serialized form of a record.
pub open spec fn encode_record(r: RecordView) -> Seq<u8> {
    let value_field = if r.value.len() == 0 {
        Seq::<u8>::empty()
    } else {
        varint_bytes(KEY_VALUE as nat) + varint_bytes(r.value.len()) + r.value
    };
    let offset_field = if r.offset == 0 {
        Seq::<u8>::empty()
    } else {
        varint_bytes(KEY_OFFSET as nat) + varint_bytes(r.offset as nat)
    };
    value_field + offset_field
}

/// The varint at the start of `b` as a `u64` with its length, which is at
/// least one and at most the length of `b`.
pub open spec fn varint_head(b: Seq<u8>) -> Option<(u64, int)> {
    match varint_decode(b) {
        Some((v, len)) => if 1 <= len <= b.len() && v <= u64::MAX {
            Some((v as u64, len as int))
        } else {
            None
        },
        None => None,
    }
}

/// The record that the fields in `b` make of `acc`: each field of tag 1 or 2
/// replaces the payload or the offset, a field of another tag is passed
/// over, and anything that is not a field makes the whole invalid.
pub open spec fn decode_fields(b: Seq<u8>, acc: RecordView) -> Option<RecordView>
    decreases b.len(),
{
    if b.len() == 0 {
        Some(acc)
    } else {
        match varint_head(b) {
            None => None,
            Some((key, key_len)) => {
                let tag = key / 8;
                let wire = key % 8;
                let body = b.skip(key_len);
                if key > u32::MAX || tag == 0 {
                    None
                } else if wire == 0 {
                    match varint_head(body) {
                        None => None,
                        Some((v, len)) => if tag == 1 {
                            None
                        } else if tag == 2 {
                            decode_fields(body.skip(len), RecordView { offset: v, ..acc })
                        } else {
                            decode_fields(body.skip(len), acc)
                        },
                    }
                } else if wire == 2 {
                    match varint_head(body) {
                        None => None,
                        Some((n, len)) => if tag == 2 || n > body.len() - len {
                            None
                        } else if tag == 1 {
                            decode_fields(
                                body.skip(len + n),
                                RecordView { value: body.subrange(len, len + n), ..acc },
                            )
                        } else {
                            decode_fields(body.skip(len + n), acc)
                        },
                    }
                } else if wire == 1 {
                    if tag == 1 || tag == 2 || body.len() < 8 {
                        None
                    } else {
                        decode_fields(body.skip(8), acc)
                    }
                } else if wire == 5 {
                    if tag == 1 || tag == 2 || body.len() < 4 {
                        None
                    } else {
                        decode_fields(body.skip(4), acc)
                    }
                } else {
                    None
                }
            },
        }
    }
}

/// The record that `b` is the serialized form of, if it is one.
pub open spec fn decode_record(b: Seq<u8>) -> Option<RecordView> {
    decode_fields(b, empty_record())
}

/// The varint of a `u64` is the head of whatever starts with it.
pub proof fn lemma_varint_head(n: u64, rest: Seq<u8>)
    ensures
        varint_head(varint_bytes(n as nat) + rest) == Some(
            (n, varint_bytes(n as nat).len() as int),
        ),
{
    lemma_varint_roundtrip(n, rest);
}

/// `varint_head` loses nothing of `varint_decode`.
pub proof fn lemma_varint_head_total(b: Seq<u8>)
    ensures
        varint_head(b) is None <==> varint_decode(b) is None,
{
    lemma_varint_decode_bounds(b);
}

/// An offset field in front of `rest` sets the offset and leaves `rest`.
pub proof fn lemma_decode_offset_field(offset: u64, rest: Seq<u8>, acc: RecordView)
    ensures
        decode_fields(
            varint_bytes(KEY_OFFSET as nat) + varint_bytes(offset as nat) + rest,
            acc,
        ) == decode_fields(rest, RecordView { offset: offset, ..acc }),
{
    let key = varint_bytes(KEY_OFFSET as nat);
    let num = varint_bytes(offset as nat);
    let b = key + num + rest;
    assert(b =~= key + (num + rest));
    lemma_varint_head(KEY_OFFSET, num + rest);
    let body = b.skip(key.len() as int);
    assert(body =~= num + rest);
    lemma_varint_head(offset, rest);
    assert(body.skip(num.len() as int) =~= rest);
}

/// A payload field in front of `rest` sets the payload and leaves `rest`.
pub proof fn lemma_decode_value_field(value: Seq<u8>, rest: Seq<u8>, acc: RecordView)
    requires
        value.len() <= u64::MAX,
    ensures
        decode_fields(
            varint_bytes(KEY_VALUE as nat) + varint_bytes(value.len()) + value + rest,
            acc,
        ) == decode_fields(rest, RecordView { value: value, ..acc }),
{
    let key = varint_bytes(KEY_VALUE as nat);
    let num = varint_bytes(value.len());
    let b = key + num + value + rest;
    assert(b =~= key + (num + value + rest));
    lemma_varint_head(KEY_VALUE, num + value + rest);
    let body = b.skip(key.len() as int);
    assert(body =~= num + (value + rest));
    lemma_varint_head(value.len() as u64, value + rest);
    let len = num.len() as int;
    let n = value.len() as int;
    assert(body.subrange(len, len + n) =~= value);
    assert(body.skip(len + n) =~= rest);
}

/// Decoding the serialized form of a record gives the record back.
pub proof fn lemma_record_roundtrip(r: RecordView)
    requires
        r.value.len() <= u64::MAX,
    ensures
        decode_record(encode_record(r)) == Some(r),
{
    let none = Seq::<u8>::empty();
    let offset_field = if r.offset == 0 {
        none
    } else {
        varint_bytes(KEY_OFFSET as nat) + varint_bytes(r.offset as nat)
    };
    let mid = RecordView { value: r.value, offset: 0 };
    assert(decode_fields(offset_field, mid) == Some(r)) by {
        if r.offset != 0 {
            lemma_decode_offset_field(r.offset, none, mid);
            assert(offset_field =~= offset_field + none);
        }
    }
    let b = encode_record(r);
    if r.value.len() == 0 {
        assert(b =~= offset_field);
        assert(mid.value =~= empty_record().value);
    } else {
        lemma_decode_value_field(r.value, offset_field, empty_record());
        assert(b =~= varint_bytes(KEY_VALUE as nat) + varint_bytes(r.value.len()) + r.value
            + offset_field);
    }
}

impl Record {
    /// The serialized form of the record.
    pub fn encode_to_vec(&self) -> (out: Vec<u8>)
        ensures
            out@ == encode_record(self@),
    {
        let mut out: Vec<u8> = Vec::new();
        if self.value.len() != 0 {
            put_varint(KEY_VALUE, &mut out);
            put_varint(self.value.len() as u64, &mut out);
            out.extend_from_slice(self.value.as_slice());
        }
        if self.offset != 0 {
            put_varint(KEY_OFFSET, &mut out);
            put_varint(self.offset, &mut out);
        }
        assert(out@ =~= encode_record(self@));
        out
    }

    /// Reads the field that starts at `pos` into `acc` and returns the
    /// place where the next field starts.
    #[verifier::spinoff_prover]
    fn decode_field(bytes: &[u8], pos: usize, acc: &mut Record) -> (r: Result<usize, LogError>)
        requires
            pos < bytes@.len(),
        ensures
            match r {
                Ok(next) => pos < next <= bytes@.len() && decode_fields(
                    bytes@.skip(pos as int),
                    old(acc)@,
                ) == decode_fields(bytes@.skip(next as int), final(acc)@),
                Err(e) => e == LogError::Decode && decode_fields(
                    bytes@.skip(pos as int),
                    old(acc)@,
                ) is None,
            },
    {
        let total: usize = bytes.len();
        let ghost b = bytes@.skip(pos as int);
        assert(bytes@.subrange(pos as int, total as int) =~= b);
        proof {
            lemma_varint_head_total(b);
        }
        let (key, left) = match take_varint(slice_subrange(bytes, pos, total)) {
            Ok(found) => found,
            Err(_) => { return Err(LogError::Decode); },
        };
        let body_at: usize = total - left;
        let ghost body = b.skip(body_at - pos);
        assert(bytes@.subrange(body_at as int, total as int) =~= body);
        assert(bytes@.skip(body_at as int) =~= body);
        proof {
            lemma_varint_head_total(body);
        }
        let tag: u64 = key / 8;
        let wire: u64 = key % 8;
        if key > 0xffff_ffff || tag == 0 {
            return Err(LogError::Decode);
        }
        if wire == 0 {
            let (v, after) = match take_varint(slice_subrange(bytes, body_at, total)) {
                Ok(found) => found,
                Err(_) => { return Err(LogError::Decode); },
            };
            if tag == 1 {
                return Err(LogError::Decode);
            }
            if tag == 2 {
                acc.offset = v;
            }
            let next: usize = total - after;
            assert(bytes@.skip(next as int) =~= body.skip(next - body_at));
            Ok(next)
        } else if wire == 2 {
            let (n, after) = match take_varint(slice_subrange(bytes, body_at, total)) {
                Ok(found) => found,
                Err(_) => { return Err(LogError::Decode); },
            };
            if tag == 2 || n > after as u64 {
                return Err(LogError::Decode);
            }
            let start: usize = total - after;
            let end: usize = start + n as usize;
            if tag == 1 {
                acc.value = slice_to_vec(slice_subrange(bytes, start, end));
                assert(bytes@.subrange(start as int, end as int) =~= body.subrange(
                    start - body_at,
                    end - body_at,
                ));
            }
            assert(bytes@.skip(end as int) =~= body.skip(end - body_at));
            Ok(end)
        } else if wire == 1 || wire == 5 {
            let width: usize = if wire == 1 {
                8
            } else {
                4
            };
            if tag == 1 || tag == 2 || left < width {
                return Err(LogError::Decode);
            }
            let next: usize = body_at + width;
            assert(bytes@.skip(next as int) =~= body.skip(width as int));
            Ok(next)
        } else {
            Err(LogError::Decode)
        }
    }

    /// Reads a record from its serialized form.
    pub fn decode(bytes: &[u8]) -> (r: Result<Record, LogError>)
        ensures
            match r {
                Ok(record) => decode_record(bytes@) == Some(record@),
                Err(e) => e == LogError::Decode && decode_record(bytes@) is None,
            },
    {
        let total: usize = bytes.len();
        let mut acc = Record::default();
        let mut pos: usize = 0;
        assert(bytes@.skip(0) =~= bytes@);
        while pos < total
            invariant
                pos <= total == bytes@.len(),
                decode_record(bytes@) == decode_fields(bytes@.skip(pos as int), acc@),
            decreases total - pos,
        {
            match Record::decode_field(bytes, pos, &mut acc) {
                Ok(next) => {
                    pos = next;
                },
                Err(e) => { return Err(e); },
            }
        }
        assert(bytes@.skip(pos as int).len() == 0);
        Ok(acc)
    }
}

} // verus!
