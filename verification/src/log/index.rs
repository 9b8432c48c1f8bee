//! The index of a segment: fixed-width entries, each the offset of a record
//! relative to the segment's base and the position of its frame in the
//! store. The entries live in a byte map that is pre-sized to the configured
//! length; how much of it is written is tracked beside it.

use crate::log::config::Config;
use crate::log::error::LogError;
use crate::log::wire::{
    lemma_u32_be_roundtrip, lemma_u32_from_be_zero, lemma_u64_be_roundtrip,
    lemma_u64_from_be_zero, read_u32_be, read_u64_be, u32_be_bytes, u32_from_be, u64_be_bytes,
    u64_from_be, write_u32_be, write_u64_be,
};
use vstd::prelude::*;

verus! {

/// Width of the relative offset of an entry.
pub const OFF_WIDTH: u64 = 4;

/// Width of the store position of an entry.
pub const POS_WIDTH: u64 = 8;

/// Width of an entry.
pub const ENT_WIDTH: u64 = OFF_WIDTH + POS_WIDTH;

/// The entry number `k` of a byte map: relative offset and store position.
pub open spec fn entry_at(map: Seq<u8>, k: int) -> (u32, u64) {
    (
        u32_from_be(map.subrange(12 * k, 12 * k + 4)),
        u64_from_be(map.subrange(12 * k + 4, 12 * k + 12)),
    )
}

/// The twelve bytes of an entry.
pub open spec fn entry_bytes(off: u32, pos: u64) -> Seq<u8> {
    u32_be_bytes(off) + u64_be_bytes(pos)
}

/// Whether entry `k` of a byte map reads as never written: relative offset
/// and position both zero.
pub open spec fn is_blank(map: Seq<u8>, k: int) -> bool {
    entry_at(map, k) == (0u32, 0u64)
}

/// Whether `n` is the number of entries that opening a map finds written,
/// where `limit` entries fit the file as it was found: entry 0 always
/// counts, and the written entries end before the first blank entry after
/// it.
pub open spec fn is_recovered_count(map: Seq<u8>, limit: int, n: int) -> bool {
    &&& 0 <= n <= limit
    &&& limit > 0 ==> n > 0
    &&& forall|k: int| 1 <= k < n ==> !is_blank(map, k)
    &&& n < limit ==> is_blank(map, n)
}

/// The number of entries that opening a map finds written.
pub open spec fn recovered_count(map: Seq<u8>, limit: int) -> int {
    choose|n: int| is_recovered_count(map, limit, n)
}

/// The map that a file of `found` bytes is opened as: the file itself,
/// extended with zeros if it is shorter than `max`.
pub open spec fn opened_map(found: Seq<u8>, max: int) -> Seq<u8> {
    if found.len() < max {
        found + Seq::new((max - found.len()) as nat, |i: int| 0u8)
    } else {
        found
    }
}

/// There is one number of recovered entries.
pub proof fn lemma_recovered_unique(map: Seq<u8>, limit: int, n: int)
    requires
        is_recovered_count(map, limit, n),
    ensures
        recovered_count(map, limit) == n,
{
    let m = recovered_count(map, limit);
    assert(is_recovered_count(map, limit, m));
    if m < n {
        assert(is_blank(map, m));
    }
    if n < m {
        assert(is_blank(map, n));
    }
}

/// Two maps that hold the same twelve bytes at entry `k` hold the same entry.
pub proof fn lemma_entry_same(a: Seq<u8>, b: Seq<u8>, k: int)
    requires
        0 <= k,
        12 * k + 12 <= a.len(),
        12 * k + 12 <= b.len(),
        a.subrange(12 * k, 12 * k + 12) == b.subrange(12 * k, 12 * k + 12),
    ensures
        entry_at(a, k) == entry_at(b, k),
{
    let sa = a.subrange(12 * k, 12 * k + 12);
    let sb = b.subrange(12 * k, 12 * k + 12);
    assert(a.subrange(12 * k, 12 * k + 4) =~= sa.subrange(0, 4));
    assert(b.subrange(12 * k, 12 * k + 4) =~= sb.subrange(0, 4));
    assert(a.subrange(12 * k + 4, 12 * k + 12) =~= sa.subrange(4, 12));
    assert(b.subrange(12 * k + 4, 12 * k + 12) =~= sb.subrange(4, 12));
}

/// A map that holds the bytes of an entry at place `k` holds that entry.
pub proof fn lemma_entry_written(map: Seq<u8>, k: int, off: u32, pos: u64)
    requires
        0 <= k,
        12 * k + 12 <= map.len(),
        map.subrange(12 * k, 12 * k + 12) == entry_bytes(off, pos),
    ensures
        entry_at(map, k) == (off, pos),
{
    let e = map.subrange(12 * k, 12 * k + 12);
    lemma_u32_be_roundtrip(off, Seq::empty());
    lemma_u64_be_roundtrip(pos, Seq::empty());
    assert(map.subrange(12 * k, 12 * k + 4) =~= e.subrange(0, 4));
    assert(e.subrange(0, 4) =~= u32_be_bytes(off) + Seq::<u8>::empty());
    assert(map.subrange(12 * k + 4, 12 * k + 12) =~= e.subrange(4, 12));
    assert(e.subrange(4, 12) =~= u64_be_bytes(pos) + Seq::<u8>::empty());
}

/// An entry is blank exactly when its twelve bytes are zero.
pub proof fn lemma_blank_is_zero(map: Seq<u8>, k: int)
    requires
        0 <= k,
        12 * k + 12 <= map.len(),
    ensures
        is_blank(map, k) <==> (forall|i: int| 12 * k <= i < 12 * k + 12 ==> map[i] == 0),
{
    let head = map.subrange(12 * k, 12 * k + 4);
    let tail = map.subrange(12 * k + 4, 12 * k + 12);
    lemma_u32_from_be_zero(head);
    lemma_u64_from_be_zero(tail);
    if is_blank(map, k) {
        assert forall|i: int| 12 * k <= i < 12 * k + 12 implies map[i] == 0 by {
            if i < 12 * k + 4 {
                assert(map[i] == head[i - 12 * k]);
            } else {
                assert(map[i] == tail[i - 12 * k - 4]);
            }
        }
    }
    if forall|i: int| 12 * k <= i < 12 * k + 12 ==> map[i] == 0 {
        assert(head[0] == map[12 * k] && head[1] == map[12 * k + 1] && head[2] == map[12 * k
            + 2] && head[3] == map[12 * k + 3]);
        assert(tail[0] == map[12 * k + 4] && tail[1] == map[12 * k + 5] && tail[2] == map[12
            * k + 6] && tail[3] == map[12 * k + 7] && tail[4] == map[12 * k + 8] && tail[5]
            == map[12 * k + 9] && tail[6] == map[12 * k + 10] && tail[7] == map[12 * k + 11]);
    }
}

/// The index of one segment.
#[derive(Debug)]
pub struct Index {
    /// The name of the file that the map is an image of.
    pub path: String,
    /// The byte map, at its pre-sized length.
    pub mmap: Vec<u8>,
    /// How many bytes of the map are written.
    pub size: u64,
}

impl Index {
    /// The written part is a whole number of entries inside the map.
    pub open spec fn wf(&self) -> bool {
        &&& self.size <= self.mmap@.len()
        &&& self.size % 12 == 0
    }

    /// The number of written entries.
    pub open spec fn entries(&self) -> int {
        self.size as int / 12
    }

    /// The entry number `k`.
    pub open spec fn entry(&self, k: int) -> (u32, u64) {
        entry_at(self.mmap@, k)
    }

    /// Every byte after the written part is zero.
    pub open spec fn tail_blank(&self) -> bool {
        forall|i: int| self.size <= i < self.mmap@.len() ==> self.mmap@[i] == 0
    }

    /// What `read` returns.
    pub open spec fn spec_read(&self, offset: i64) -> Result<(u32, u64), LogError> {
        if self.size == 0 {
            Err(LogError::UnexpectedEof)
        } else if offset == -1 {
            Ok(self.entry(self.entries() - 1))
        } else if offset < 0 {
            Err(LogError::InvalidInput)
        } else if offset >= self.entries() {
            Err(LogError::UnexpectedEof)
        } else {
            Ok(self.entry(offset as int))
        }
    }

    /// Whether the map has room for another entry.
    pub open spec fn has_room(&self) -> bool {
        self.size + 12 <= self.mmap@.len()
    }

    /// Whether the map has room for another entry.
    pub fn room_left(&self) -> (b: bool)
        requires
            self.wf(),
        ensures
            b == self.has_room(),
    {
        let len: usize = self.mmap.len();
        len >= 12 && self.size <= (len - 12) as u64
    }

    /// Cuts the written part back to its first `keep` entries and fills
    /// what was written after them with zeros.
    pub fn truncate(&mut self, keep: u64)
        requires
            old(self).wf(),
            keep <= old(self).entries(),
        ensures
            final(self).wf(),
            final(self).path == old(self).path,
            final(self).size == 12 * keep,
            final(self).mmap@.len() == old(self).mmap@.len(),
            forall|i: int| 0 <= i < 12 * keep ==> final(self).mmap@[i] == old(self).mmap@[i],
            forall|i: int| 12 * keep <= i < old(self).size ==> final(self).mmap@[i] == 0,
            forall|i: int|
                old(self).size <= i < old(self).mmap@.len() ==> final(self).mmap@[i] == old(
                    self,
                ).mmap@[i],
            old(self).tail_blank() ==> final(self).tail_blank(),
            forall|k: int| 0 <= k < keep ==> final(self).entry(k) == old(self).entry(k),
    {
        let len: usize = self.mmap.len();
        let end: usize = self.size as usize;
        let start: usize = (keep * 12) as usize;
        let mut i: usize = start;
        while i < end
            invariant
                start <= i <= end <= len == self.mmap@.len(),
                self.path == old(self).path,
                self.size == old(self).size,
                forall|j: int| 0 <= j < start ==> self.mmap@[j] == old(self).mmap@[j],
                forall|j: int| start <= j < i ==> self.mmap@[j] == 0,
                forall|j: int| i <= j < len ==> self.mmap@[j] == old(self).mmap@[j],
            decreases end - i,
        {
            self.mmap.set(i, 0u8);
            i = i + 1;
        }
        self.size = keep * 12;
        proof {
            assert forall|k: int| 0 <= k < keep implies self.entry(k) == old(self).entry(k) by {
                assert(self.mmap@.subrange(12 * k, 12 * k + 12) =~= old(self).mmap@.subrange(
                    12 * k,
                    12 * k + 12,
                ));
                lemma_entry_same(self.mmap@, old(self).mmap@, k);
            }
        }
    }

    /// Nothing to do for an image in memory: the index stays as it is.
    pub fn close(&mut self) -> (r: Result<(), LogError>)
        ensures
            r is Ok,
            *final(self) == *old(self),
    {
        Ok(())
    }

    /// Reads an entry: the last one for `-1`, else the entry number `offset`.
    pub fn read(&self, offset: i64) -> (r: Result<(u32, u64), LogError>)
        requires
            self.wf(),
        ensures
            r == self.spec_read(offset),
    {
        if self.size == 0 {
            return Err(LogError::UnexpectedEof);
        }
        let count: u64 = self.size / ENT_WIDTH;
        let entry: u64 = if offset == -1 {
            count - 1
        } else {
            if offset < 0 {
                return Err(LogError::InvalidInput);
            }
            offset as u64
        };
        if entry >= count {
            return Err(LogError::UnexpectedEof);
        }
        let len: usize = self.mmap.len();
        assert(entry * 12 + 12 <= len);
        let position: usize = (entry * ENT_WIDTH) as usize;
        let out = read_u32_be(&self.mmap, position);
        let new_position = read_u64_be(&self.mmap, position + 4);
        Ok((out, new_position))
    }

    /// Appends an entry to the written part, if the map has room for it.
    #[verifier::spinoff_prover]
    pub fn write(&mut self, off: u32, pos: u64) -> (r: Result<(), LogError>)
        requires
            old(self).wf(),
        ensures
            final(self).wf(),
            final(self).path == old(self).path,
            final(self).mmap@.len() == old(self).mmap@.len(),
            old(self).has_room() ==> r is Ok,
            !old(self).has_room() ==> r == Err::<(), LogError>(LogError::UnexpectedEof),
            r is Err ==> *final(self) == *old(self),
            r is Ok ==> {
                &&& final(self).size == old(self).size + 12
                &&& final(self).mmap@ == old(self).mmap@.subrange(0, old(self).size as int)
                    + entry_bytes(off, pos) + old(self).mmap@.subrange(
                    old(self).size + 12,
                    old(self).mmap@.len() as int,
                )
                &&& final(self).entry(old(self).entries()) == (off, pos)
                &&& forall|k: int|
                    0 <= k < old(self).entries() ==> final(self).entry(k) == old(self).entry(k)
                &&& old(self).tail_blank() ==> final(self).tail_blank()
            },
    {
        let len: usize = self.mmap.len();
        if len < 12 || self.size > (len - 12) as u64 {
            return Err(LogError::UnexpectedEof);
        }
        let at: usize = self.size as usize;
        write_u32_be(&mut self.mmap, at, off);
        write_u64_be(&mut self.mmap, at + 4, pos);
        self.size = self.size + ENT_WIDTH;
        proof {
            let before = old(self).mmap@;
            let after = self.mmap@;
            assert(after =~= before.subrange(0, at as int) + entry_bytes(off, pos)
                + before.subrange(at + 12, len as int));
            let k = old(self).entries();
            assert(at == 12 * k);
            assert(after.subrange(12 * k, 12 * k + 12) =~= entry_bytes(off, pos));
            lemma_entry_written(after, k, off, pos);
            assert forall|j: int| 0 <= j < k implies self.entry(j) == old(self).entry(j) by {
                assert(after.subrange(12 * j, 12 * j + 12) =~= before.subrange(
                    12 * j,
                    12 * j + 12,
                ));
                lemma_entry_same(after, before, j);
            }
        }
        Ok(())
    }
}

/// Opens an index over the bytes found in its file. A file shorter than the
/// configured length is extended with zeros to that length. The written part
/// is what the scan of the file as found makes of it: see
/// `is_recovered_count`.
#[verifier::spinoff_prover]
pub fn new(bytes: Vec<u8>, path: String, conf: &Config) -> (r: Result<Index, LogError>)
    ensures
        conf.segment.max_index_bytes > usize::MAX ==> r == Err::<Index, LogError>(
            LogError::InvalidInput,
        ),
        conf.segment.max_index_bytes <= usize::MAX ==> r is Ok,
        r is Ok ==> {
            let index = r->Ok_0;
            let found = bytes@.len() as int;
            let max = conf.segment.max_index_bytes as int;
            &&& index.wf()
            &&& index.path == path
            &&& index.mmap@ == opened_map(bytes@, max)
            &&& index.entries() == recovered_count(index.mmap@, found / 12)
            &&& is_recovered_count(index.mmap@, found / 12, index.entries())
        },
{
    let file_size: usize = bytes.len();
    let max_size: u64 = conf.segment.max_index_bytes;
    if max_size > usize::MAX as u64 {
        return Err(LogError::InvalidInput);
    }
    let mut mmap = bytes;
    if file_size < max_size as usize {
        mmap.resize(max_size as usize, 0u8);
    }
    assert(mmap@ =~= opened_map(bytes@, max_size as int));
    let limit: usize = file_size / 12;
    let mut count: usize = 0;
    while count < limit
        invariant
            count <= limit == file_size / 12,
            file_size <= mmap@.len(),
            mmap@ == opened_map(bytes@, max_size as int),
            forall|k: int| 1 <= k < count ==> !is_blank(mmap@, k),
        ensures
            count <= limit,
            limit > 0 ==> count > 0,
            forall|k: int| 1 <= k < count ==> !is_blank(mmap@, k),
            count < limit ==> is_blank(mmap@, count as int),
        decreases limit - count,
    {
        let position: usize = count * 12;
        if count > 0 {
            let offset_value = read_u32_be(&mmap, position);
            if offset_value == 0 {
                let pos_value = read_u64_be(&mmap, position + 4);
                if pos_value == 0 {
                    break ;
                }
            }
        }
        count = count + 1;
    }
    proof {
        lemma_recovered_unique(mmap@, limit as int, count as int);
    }
    let index = Index { path, mmap, size: (count * 12) as u64 };
    Ok(index)
}

} // verus!
