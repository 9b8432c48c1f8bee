//! The store of a segment: the records' serialized forms, each framed by
//! its length as a big-endian `u64`, one frame after the other.
//!
//! A store holds the image of its file in memory. An append is part of the
//! image as soon as it returns; whoever keeps the file must write the new
//! bytes and sync them before the append is acknowledged to a client.

use crate::log::error::LogError;
use crate::log::wire::{lemma_u64_be_roundtrip, read_u64_be, u64_be_bytes, u64_from_be, u64_to_be_vec};
use vstd::prelude::*;
use vstd::slice::slice_subrange;

verus! {

/// Width of the length that precedes the bytes of a frame.
pub const LEN_WIDTH: u64 = 8;

/// A frame: the length of the payload, then the payload.
pub open spec fn frame(payload: Seq<u8>) -> Seq<u8> {
    u64_be_bytes(payload.len() as u64) + payload
}

/// The payload of the frame that starts at `pos` in `data`, if a whole frame
/// starts there.
pub open spec fn frame_at(data: Seq<u8>, pos: int) -> Result<Seq<u8>, LogError> {
    if pos < 0 || pos + 8 > data.len() {
        Err(LogError::UnexpectedEof)
    } else {
        let len = u64_from_be(data.subrange(pos, pos + 8));
        if pos + 8 + len > data.len() {
            Err(LogError::UnexpectedEof)
        } else {
            Ok(data.subrange(pos + 8, pos + 8 + len))
        }
    }
}

/// A frame that was read from a store is read from every extension of it.
pub proof fn lemma_frame_at_stable(data: Seq<u8>, more: Seq<u8>, pos: int)
    requires
        frame_at(data, pos) is Ok,
    ensures
        frame_at(data + more, pos) == frame_at(data, pos),
{
    let all = data + more;
    assert(all.subrange(pos, pos + 8) =~= data.subrange(pos, pos + 8));
    let len = u64_from_be(data.subrange(pos, pos + 8));
    assert(all.subrange(pos + 8, pos + 8 + len) =~= data.subrange(pos + 8, pos + 8 + len));
}

/// A frame that ends at or before `len` is read from the first `len` bytes
/// of the store as from the whole store.
pub proof fn lemma_frame_at_prefix(data: Seq<u8>, len: int, pos: int)
    requires
        0 <= len <= data.len(),
        frame_at(data, pos) is Ok,
        pos + 8 + u64_from_be(data.subrange(pos, pos + 8)) <= len,
    ensures
        frame_at(data.subrange(0, len), pos) == frame_at(data, pos),
{
    let part = data.subrange(0, len);
    assert(part.subrange(pos, pos + 8) =~= data.subrange(pos, pos + 8));
    let n = u64_from_be(data.subrange(pos, pos + 8));
    assert(part.subrange(pos + 8, pos + 8 + n) =~= data.subrange(pos + 8, pos + 8 + n));
}

/// A frame appended to a store is read back at the place where the store
/// ended.
pub proof fn lemma_frame_at_end(data: Seq<u8>, payload: Seq<u8>)
    requires
        payload.len() <= u64::MAX,
    ensures
        frame_at(data + frame(payload), data.len() as int) == Ok::<Seq<u8>, LogError>(payload),
{
    let all = data + frame(payload);
    let pos = data.len() as int;
    lemma_u64_be_roundtrip(payload.len() as u64, Seq::empty());
    assert(all.subrange(pos, pos + 8) =~= u64_be_bytes(payload.len() as u64) + Seq::<u8>::empty());
    assert(all.subrange(pos + 8, pos + 8 + payload.len()) =~= payload);
}

/// The store of one segment.
#[derive(Debug)]
pub struct Store {
    /// The name of the file that the store is an image of.
    pub path: String,
    /// The bytes of the file.
    pub data: Vec<u8>,
    /// The number of bytes written so far, which is where the next frame
    /// starts.
    pub size: u64,
}

/// Opens a store over the bytes found in its file.
pub fn new(bytes: Vec<u8>, path: String) -> (store: Store)
    ensures
        store.wf(),
        store.data@ == bytes@,
        store.path == path,
{
    let size = bytes.len() as u64;
    Store { path, data: bytes, size }
}

impl Store {
    /// The size is the length of the image.
    pub open spec fn wf(&self) -> bool {
        self.size == self.data@.len()
    }

    /// What `read` returns.
    pub open spec fn spec_read(&self, pos: u64) -> Result<Seq<u8>, LogError> {
        frame_at(self.data@, pos as int)
    }

    /// Whether a payload of `len` bytes can be framed and appended.
    pub open spec fn can_take(&self, len: int) -> bool {
        self.size + 8 + len <= u64::MAX
    }

    /// Whether a payload of `len` bytes can be framed and appended.
    pub fn fits(&self, len: usize) -> (b: bool)
        ensures
            b == self.can_take(len as int),
    {
        let len: u64 = len as u64;
        len <= u64::MAX - 8 && self.size <= u64::MAX - 8 - len
    }

    /// Appends `p` as a frame. Returns the length of the frame and the
    /// position at which it starts.
    pub fn append(&mut self, p: &[u8]) -> (r: Result<(u64, u64), LogError>)
        requires
            old(self).wf(),
        ensures
            final(self).wf(),
            final(self).path == old(self).path,
            match r {
                Ok((written, pos)) => {
                    &&& old(self).can_take(p@.len() as int)
                    &&& pos == old(self).size
                    &&& written == p@.len() + 8
                    &&& final(self).data@ == old(self).data@ + frame(p@)
                    &&& final(self).spec_read(pos) == Ok::<Seq<u8>, LogError>(p@)
                },
                Err(e) => {
                    &&& !old(self).can_take(p@.len() as int)
                    &&& e == LogError::SegmentFull
                    &&& *final(self) == *old(self)
                },
            },
    {
        let pos: u64 = self.size;
        let len: u64 = p.len() as u64;
        if len > u64::MAX - 8 || pos > u64::MAX - 8 - len {
            return Err(LogError::SegmentFull);
        }
        let len_buf = u64_to_be_vec(len);
        self.data.extend_from_slice(len_buf.as_slice());
        self.data.extend_from_slice(p);
        let written: u64 = len + LEN_WIDTH;
        self.size = self.size + written;
        proof {
            assert(self.data@ =~= old(self).data@ + frame(p@));
            lemma_frame_at_end(old(self).data@, p@);
        }
        Ok((written, pos))
    }

    /// Reads the payload of the frame that starts at `pos`.
    pub fn read(&self, pos: u64) -> (r: Result<Vec<u8>, LogError>)
        requires
            self.wf(),
        ensures
            match r {
                Ok(bytes) => self.spec_read(pos) == Ok::<Seq<u8>, LogError>(bytes@),
                Err(e) => self.spec_read(pos) == Err::<Seq<u8>, LogError>(e),
            },
    {
        let total: usize = self.data.len();
        if total < 8 || pos > (total - 8) as u64 {
            return Err(LogError::UnexpectedEof);
        }
        let at: usize = pos as usize;
        let len: u64 = read_u64_be(&self.data, at);
        let rest: usize = total - 8 - at;
        if len > rest as u64 {
            return Err(LogError::UnexpectedEof);
        }
        let start: usize = at + 8;
        let end: usize = start + len as usize;
        let mut b: Vec<u8> = Vec::new();
        b.extend_from_slice(slice_subrange(self.data.as_slice(), start, end));
        assert(b@ =~= self.data@.subrange(start as int, end as int));
        Ok(b)
    }

    /// Fills `p` with the bytes that start at `off`, as many as `p` holds.
    /// Returns how many bytes that is.
    pub fn read_at(&self, p: &mut Vec<u8>, off: u64) -> (r: Result<usize, LogError>)
        requires
            self.wf(),
        ensures
            final(p)@.len() == old(p)@.len(),
            match r {
                Ok(n) => {
                    &&& off + old(p)@.len() <= self.size
                    &&& n == old(p)@.len()
                    &&& final(p)@ == self.data@.subrange(off as int, off + n)
                },
                Err(e) => {
                    &&& off + old(p)@.len() > self.size
                    &&& e == LogError::UnexpectedEof
                    &&& final(p)@ == old(p)@
                },
            },
    {
        let total: usize = self.data.len();
        let want: usize = p.len();
        if want > total || off > (total - want) as u64 {
            return Err(LogError::UnexpectedEof);
        }
        let start: usize = off as usize;
        p.clear();
        p.extend_from_slice(slice_subrange(self.data.as_slice(), start, start + want));
        assert(p@ =~= self.data@.subrange(off as int, off + want));
        Ok(want)
    }

    /// Cuts the store back to its first `position` bytes.
    pub fn truncate(&mut self, position: u64)
        requires
            old(self).wf(),
            position <= old(self).size,
        ensures
            final(self).wf(),
            final(self).path == old(self).path,
            final(self).size == position,
            final(self).data@ == old(self).data@.subrange(0, position as int),
    {
        self.data.truncate(position as usize);
        self.size = position;
    }

    /// Nothing to do for an image in memory: the store stays as it is.
    pub fn close(&mut self) -> (r: Result<(), LogError>)
        ensures
            r is Ok,
            *final(self) == *old(self),
    {
        Ok(())
    }
}

} // verus!
