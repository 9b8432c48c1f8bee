//! A segment: one store and one index, bound to a base offset. The segment
//! assigns offsets to the records appended to it and finds a record again
//! by its offset.

use crate::log::config::Config;
use crate::log::error::LogError;
use crate::log::index;
use crate::log::index::{entry_at, entry_bytes, opened_map, recovered_count, Index};
use crate::log::names::{index_name, index_name_of, store_name, store_name_of};
pub use crate::log::record::Record;
use crate::log::record::{decode_record, encode_record, lemma_record_roundtrip, RecordView};
use crate::log::store;
use crate::log::store::{frame, frame_at, lemma_frame_at_prefix, lemma_frame_at_stable, Store};
use crate::log::wire::{read_u64_be, u64_from_be};
use vstd::prelude::*;

verus! {

/// A store and an index that cover the offsets from `base_offset` up to,
/// and not including, `next_offset`.
#[derive(Debug)]
pub struct Segment {
    pub store: Store,
    pub index: Index,
    pub base_offset: u64,
    pub next_offset: u64,
    pub config: Config,
}

/// The offset after the last record of a segment at `base` whose index has
/// `n` written entries: the base if there is none, else one past what the
/// last entry gives.
pub open spec fn end_offset(base: u64, map: Seq<u8>, n: int) -> int {
    if n == 0 {
        base as int
    } else {
        base + entry_at(map, n - 1).0 + 1
    }
}

/// The number of entries of a segment that is opened over the given file
/// contents: what opening the index finds written, but none where the store
/// holds no frame, since an index over a store without frames has no entry
/// that leads anywhere.
pub open spec fn opened_entries(store_bytes: Seq<u8>, index_bytes: Seq<u8>, conf: Config) -> int {
    if store_bytes.len() == 0 {
        0
    } else {
        recovered_count(
            opened_map(index_bytes, conf.segment.max_index_bytes as int),
            index_bytes.len() as int / 12,
        )
    }
}

/// Whether `segment` is what opening the segment at `base` over the given
/// file contents gives.
pub open spec fn opened_from(
    segment: Segment,
    base: u64,
    conf: Config,
    store_bytes: Seq<u8>,
    index_bytes: Seq<u8>,
) -> bool {
    let map = opened_map(index_bytes, conf.segment.max_index_bytes as int);
    let n = opened_entries(store_bytes, index_bytes, conf);
    &&& segment.wf()
    &&& segment.base_offset == base
    &&& segment.config == conf
    &&& segment.store.data@ == store_bytes
    &&& segment.store.path@ == store_name_of(base)
    &&& segment.index.path@ == index_name_of(base)
    &&& segment.index.mmap@ == map
    &&& segment.index.size == 12 * n
    &&& segment.next_offset == end_offset(base, map, n)
}

/// Whether the segment at `base` can be opened over the given file
/// contents: the index map must fit the address space and the last entry
/// must leave room for the next offset.
pub open spec fn can_open(base: u64, conf: Config, store_bytes: Seq<u8>, index_bytes: Seq<u8>) -> bool {
    let map = opened_map(index_bytes, conf.segment.max_index_bytes as int);
    let n = opened_entries(store_bytes, index_bytes, conf);
    conf.segment.max_index_bytes <= usize::MAX && end_offset(base, map, n) <= u64::MAX
}

/// Opens the segment at `base_off` over the contents of its two files, each
/// empty if the file does not exist yet. The entries of the index are those
/// that opening the index finds written; over a store without frames the
/// index has no entry.
pub fn new(base_off: u64, conf: Config, store_bytes: Vec<u8>, index_bytes: Vec<u8>) -> (r: Result<
    Segment,
    LogError,
>)
    ensures
        match r {
            Ok(segment) => can_open(base_off, conf, store_bytes@, index_bytes@) && opened_from(
                segment,
                base_off,
                conf,
                store_bytes@,
                index_bytes@,
            ),
            Err(e) => e == LogError::InvalidInput && !can_open(
                base_off,
                conf,
                store_bytes@,
                index_bytes@,
            ),
        },
{
    let store = store::new(store_bytes, store_name(base_off));
    let mut index = match index::new(index_bytes, index_name(base_off), &conf) {
        Ok(index) => index,
        Err(e) => { return Err(e); },
    };
    if store.size == 0 {
        index.size = 0;
    }
    let next_offset: u64 = match index.read(-1) {
        Ok((relative_offset, _)) => {
            let rel: u64 = relative_offset as u64;
            if base_off > u64::MAX - 1 - rel {
                return Err(LogError::InvalidInput);
            }
            base_off + rel + 1
        },
        Err(_) => base_off,
    };
    Ok(Segment { store, index, base_offset: base_off, next_offset, config: conf })
}

impl Segment {
    /// Store and index are well formed and the segment does not end before
    /// it starts.
    pub open spec fn wf(&self) -> bool {
        &&& self.store.wf()
        &&& self.index.wf()
        &&& self.base_offset <= self.next_offset
    }

    /// Whether `offset` lies in the range of the segment.
    pub open spec fn owns(&self, offset: u64) -> bool {
        self.base_offset <= offset < self.next_offset
    }

    /// Whether the segment has no record.
    pub open spec fn is_empty(&self) -> bool {
        self.next_offset == self.base_offset
    }

    /// The record that index entry `rel` leads to.
    pub open spec fn spec_lookup(&self, rel: int) -> Result<RecordView, LogError> {
        if rel < 0 || rel >= self.index.entries() {
            Err(LogError::UnexpectedEof)
        } else {
            match frame_at(self.store.data@, self.index.entry(rel).1 as int) {
                Err(e) => Err(e),
                Ok(bytes) => match decode_record(bytes) {
                    Some(record) => Ok(record),
                    None => Err(LogError::Decode),
                },
            }
        }
    }

    /// What `read` returns.
    pub open spec fn spec_read(&self, offset: u64) -> Result<RecordView, LogError> {
        if !self.owns(offset) {
            Err(LogError::NotFound)
        } else {
            self.spec_lookup(offset - self.base_offset)
        }
    }

    /// Whether the index has one entry for each offset of the range.
    pub open spec fn aligned(&self) -> bool {
        self.next_offset - self.base_offset == self.index.entries()
    }

    /// Whether the segment holds, for `offset`, an index entry with the
    /// relative offset that leads to a record with that offset.
    pub open spec fn holds(&self, offset: u64) -> bool {
        &&& self.index.entry(offset - self.base_offset).0 == offset - self.base_offset
        &&& self.spec_read(offset) is Ok
        &&& self.spec_read(offset)->Ok_0.offset == offset
    }

    /// Where the frame that index entry `rel` leads to ends in the store.
    pub open spec fn frame_end(&self, rel: int) -> int {
        let pos = self.index.entry(rel).1 as int;
        pos + 8 + u64_from_be(self.store.data@.subrange(pos, pos + 8))
    }

    /// Whether the frame of each entry ends at or before the place where
    /// the frame of every later entry starts.
    pub open spec fn ordered(&self) -> bool {
        forall|a: int, b: int|
            0 <= a < b < self.index.entries() ==> #[trigger] self.frame_end(a) <= (
            #[trigger] self.index.entry(b)).1
    }

    /// The invariant of a segment that was filled by appends: one index
    /// entry for each offset of the range, each leading to the record of
    /// that offset; the frames in the store in the order of their offsets;
    /// zeros after the written part of the index.
    pub open spec fn consistent(&self) -> bool {
        &&& self.wf()
        &&& self.aligned()
        &&& self.index.tail_blank()
        &&& self.is_empty() ==> self.store.size == 0
        &&& !self.is_empty() ==> self.index.entry(0).1 == 0
        &&& self.ordered()
        &&& forall|offset: u64| #[trigger] self.owns(offset) ==> self.holds(offset)
    }

    /// The segment cut back to the records below `from`: what `truncate`
    /// leaves of the offsets.
    pub open spec fn end_after_truncate(&self, from: u64) -> u64 {
        if from >= self.next_offset {
            self.next_offset
        } else if from <= self.base_offset {
            self.base_offset
        } else {
            from
        }
    }

    /// Whether the segment can take a record whose serialized form has `len`
    /// bytes.
    pub open spec fn can_append(&self, len: int) -> bool {
        &&& self.next_offset < u64::MAX
        &&& self.next_offset - self.base_offset <= u32::MAX
        &&& self.index.has_room()
        &&& self.store.can_take(len)
    }

    /// What `is_maxed` returns.
    pub open spec fn spec_is_maxed(&self) -> bool {
        self.store.size >= self.config.segment.max_store_bytes || self.index.size
            >= self.config.segment.max_index_bytes
    }

    /// The offset of the first record of the segment.
    pub fn base_offset(&self) -> (offset: u64)
        ensures
            offset == self.base_offset,
    {
        self.base_offset
    }

    /// The offset that the next record will get.
    pub fn next_offset(&self) -> (offset: u64)
        ensures
            offset == self.next_offset,
    {
        self.next_offset
    }

    /// Gives the record the next offset and appends it: its serialized form
    /// to the store, an entry for it to the index. A segment that cannot
    /// take the record is left as it was.
    #[verifier::spinoff_prover]
    pub fn append(&mut self, record: &mut Record) -> (r: Result<u64, LogError>)
        requires
            old(self).wf(),
        ensures
            final(self).wf(),
            final(self).base_offset == old(self).base_offset,
            final(self).config == old(self).config,
            final(self).store.path == old(self).store.path,
            final(self).index.path == old(self).index.path,
            final(self).index.mmap@.len() == old(self).index.mmap@.len(),
            final(record)@ == (RecordView {
                value: old(record)@.value,
                offset: old(self).next_offset,
            }),
            old(self).consistent() ==> final(self).consistent(),
            match r {
                Ok(offset) => {
                    &&& old(self).can_append(encode_record(final(record)@).len() as int)
                    &&& old(self).appended(*final(self), final(record)@)
                    &&& offset == old(self).next_offset
                    &&& final(self).next_offset == offset + 1
                    &&& final(self).store.data@ == old(self).store.data@ + frame(
                        encode_record(final(record)@),
                    )
                    &&& final(self).index.size == old(self).index.size + 12
                    &&& final(self).index.mmap@ == old(self).index.mmap@.subrange(
                        0,
                        old(self).index.size as int,
                    ) + entry_bytes((offset - old(self).base_offset) as u32, old(self).store.size)
                        + old(self).index.mmap@.subrange(
                        old(self).index.size + 12,
                        old(self).index.mmap@.len() as int,
                    )
                    &&& final(self).index.entry(old(self).index.entries()) == ((offset
                        - old(self).base_offset) as u32, old(self).store.size)
                    &&& old(self).aligned() ==> final(self).spec_read(offset) == Ok::<
                        RecordView,
                        LogError,
                    >(final(record)@)
                    &&& forall|other: u64| #[trigger]
                        old(self).owns(other) && old(self).spec_read(other) is Ok
                            ==> final(self).spec_read(other) == old(self).spec_read(other)
                },
                Err(e) => {
                    &&& !old(self).can_append(encode_record(final(record)@).len() as int)
                    &&& e == LogError::SegmentFull
                    &&& *final(self) == *old(self)
                },
            },
    {
        let current_offset: u64 = self.next_offset;
        record.offset = current_offset;
        let bytes = record.encode_to_vec();
        let relative: u64 = current_offset - self.base_offset;
        if current_offset == u64::MAX || relative > 0xffff_ffff || !self.index.room_left()
            || !self.store.fits(bytes.len()) {
            return Err(LogError::SegmentFull);
        }
        let position: u64 = match self.store.append(bytes.as_slice()) {
            Ok((_, position)) => position,
            Err(e) => { return Err(e); },
        };
        match self.index.write(relative as u32, position) {
            Ok(()) => {},
            Err(_) => { return Err(LogError::SegmentFull); },
        }
        self.next_offset = current_offset + 1;
        proof {
            assert(old(self).appended(*self, record@));
            old(self).lemma_append_reads(*self, record@);
            if old(self).consistent() {
                old(self).lemma_append_consistent(*self, record@);
            }
        }
        Ok(current_offset)
    }

    /// Reads the record at `offset`.
    pub fn read(&self, offset: u64) -> (r: Result<Record, LogError>)
        requires
            self.wf(),
        ensures
            match r {
                Ok(record) => self.spec_read(offset) == Ok::<RecordView, LogError>(record@),
                Err(e) => self.spec_read(offset) == Err::<RecordView, LogError>(e),
            },
    {
        if offset < self.base_offset || offset >= self.next_offset {
            return Err(LogError::NotFound);
        }
        let relative: u64 = offset - self.base_offset;
        if relative >= self.index.size / 12 {
            return Err(LogError::UnexpectedEof);
        }
        let position: u64 = match self.index.read(relative as i64) {
            Ok((_, position)) => position,
            Err(e) => { return Err(e); },
        };
        let bytes = match self.store.read(position) {
            Ok(bytes) => bytes,
            Err(e) => { return Err(e); },
        };
        Record::decode(bytes.as_slice())
    }

    /// Whether `after` is the segment with `record` appended to it: its
    /// frame at the end of the store, its entry at the end of the index.
    pub open spec fn appended(self, after: Segment, record: RecordView) -> bool {
        &&& self.wf()
        &&& after.wf()
        &&& record.offset == self.next_offset
        &&& record.value.len() <= u64::MAX
        &&& after.base_offset == self.base_offset
        &&& after.next_offset == self.next_offset + 1
        &&& after.config == self.config
        &&& after.store.path == self.store.path
        &&& after.index.path == self.index.path
        &&& self.next_offset - self.base_offset <= u32::MAX
        &&& after.store.data@ == self.store.data@ + frame(encode_record(record))
        &&& after.index.mmap@ == self.index.mmap@.subrange(0, self.index.size as int)
            + entry_bytes((self.next_offset - self.base_offset) as u32, self.store.size)
            + self.index.mmap@.subrange(self.index.size + 12, self.index.mmap@.len() as int)
        &&& after.store.spec_read(self.store.size) == Ok::<Seq<u8>, LogError>(
            encode_record(record),
        )
        &&& after.index.size == self.index.size + 12
        &&& after.index.mmap@.len() == self.index.mmap@.len()
        &&& after.index.entry(self.index.entries()) == ((self.next_offset
            - self.base_offset) as u32, self.store.size)
        &&& forall|k: int|
            0 <= k < self.index.entries() ==> after.index.entry(k) == self.index.entry(k)
        &&& self.index.tail_blank() ==> after.index.tail_blank()
    }

    /// After an append, what could be read still reads the same, and the
    /// new record is read at its offset.
    #[verifier::spinoff_prover]
    pub proof fn lemma_append_reads(self, after: Segment, record: RecordView)
        requires
            self.appended(after, record),
        ensures
            self.aligned() ==> after.spec_read(self.next_offset) == Ok::<RecordView, LogError>(
                record,
            ),
            forall|other: u64| #[trigger]
                self.owns(other) && self.spec_read(other) is Ok ==> after.spec_read(other)
                    == self.spec_read(other),
    {
        let k = self.index.entries();
        let added = frame(encode_record(record));
        lemma_record_roundtrip(record);
        assert(after.index.entries() == k + 1);
        assert forall|other: u64| #[trigger]
            self.owns(other) && self.spec_read(other) is Ok implies after.spec_read(other)
            == self.spec_read(other) by {
            let rel = other - self.base_offset;
            assert(after.index.entry(rel) == self.index.entry(rel));
            lemma_frame_at_stable(self.store.data@, added, self.index.entry(rel).1 as int);
        }
    }

    /// After an append to a consistent segment the frames are still in the
    /// order of their offsets.
    #[verifier::spinoff_prover]
    pub proof fn lemma_append_ordered(self, after: Segment, record: RecordView)
        requires
            self.appended(after, record),
            self.consistent(),
        ensures
            after.ordered(),
    {
        let k = self.index.entries();
        assert(after.index.entries() == k + 1);
        assert forall|a: int, b: int| 0 <= a < b < after.index.entries() implies
            #[trigger] after.frame_end(a) <= (#[trigger] after.index.entry(b)).1 by {
            let offset = (self.base_offset + a) as u64;
            assert(self.owns(offset));
            assert(self.holds(offset));
            let pos = self.index.entry(a).1 as int;
            assert(after.index.entry(a) == self.index.entry(a));
            assert(after.store.data@.subrange(pos, pos + 8) =~= self.store.data@.subrange(
                pos,
                pos + 8,
            ));
            if b < k {
                assert(after.index.entry(b) == self.index.entry(b));
                assert(self.frame_end(a) <= self.index.entry(b).1);
            }
        }
    }

    /// An append to a consistent segment leaves a consistent segment.
    #[verifier::spinoff_prover]
    pub proof fn lemma_append_consistent(self, after: Segment, record: RecordView)
        requires
            self.appended(after, record),
            self.consistent(),
        ensures
            after.consistent(),
    {
        let k = self.index.entries();
        assert(after.index.entries() == k + 1);
        self.lemma_append_reads(after, record);
        self.lemma_append_ordered(after, record);
        assert forall|offset: u64| #[trigger] after.owns(offset) implies after.holds(offset) by {
            if offset != self.next_offset {
                assert(self.owns(offset));
                assert(self.holds(offset));
                let rel = offset - self.base_offset;
                assert(after.index.entry(rel) == self.index.entry(rel));
            }
        }
        if !self.is_empty() {
            assert(after.index.entry(0) == self.index.entry(0));
        }
    }

    /// What is left of a consistent segment after its index was cut back to
    /// `keep` entries and its store to the place where the frame of entry
    /// `keep` started: a consistent segment that reads, below its new end,
    /// what it read before.
    #[verifier::spinoff_prover]
    pub proof fn lemma_truncate(self, after: Segment, keep: int)
        requires
            self.consistent(),
            0 <= keep < self.index.entries(),
            after.base_offset == self.base_offset,
            after.next_offset == self.base_offset + keep,
            after.index.size == 12 * keep,
            after.index.mmap@.len() == self.index.mmap@.len(),
            after.index.tail_blank(),
            forall|k: int| 0 <= k < keep ==> after.index.entry(k) == self.index.entry(k),
            after.store.size == self.index.entry(keep).1,
            after.store.size <= self.store.size,
            after.store.data@ == self.store.data@.subrange(0, after.store.size as int),
        ensures
            after.consistent(),
            forall|offset: u64| #[trigger]
                after.owns(offset) ==> after.spec_read(offset) == self.spec_read(offset),
    {
        let old_data = self.store.data@;
        let new_data = after.store.data@;
        let position = after.store.size as int;
        assert forall|k: int| 0 <= k < keep implies #[trigger] after.frame_end(k)
            == self.frame_end(k) && frame_at(new_data, after.index.entry(k).1 as int) == frame_at(
            old_data,
            self.index.entry(k).1 as int,
        ) by {
            let offset = (self.base_offset + k) as u64;
            assert(self.owns(offset));
            assert(self.holds(offset));
            assert(self.frame_end(k) <= self.index.entry(keep).1);
            lemma_frame_at_prefix(old_data, position, self.index.entry(k).1 as int);
            let pos = self.index.entry(k).1 as int;
            assert(new_data.subrange(pos, pos + 8) =~= old_data.subrange(pos, pos + 8));
        }
        assert forall|offset: u64| #[trigger] after.owns(offset) implies after.spec_read(offset)
            == self.spec_read(offset) && after.holds(offset) by {
            let k = offset - self.base_offset;
            assert(self.owns(offset));
            assert(self.holds(offset));
            assert(after.frame_end(k) == self.frame_end(k));
        }
        assert forall|a: int, b: int| 0 <= a < b < after.index.entries() implies
            #[trigger] after.frame_end(a) <= (#[trigger] after.index.entry(b)).1 by {
            assert(after.frame_end(a) == self.frame_end(a));
            assert(self.frame_end(a) <= self.index.entry(b).1);
        }
        if keep == 0 {
            let first = self.base_offset;
            assert(self.owns(first));
            assert(self.holds(first));
        }
    }

    /// Drops the records at `from` and after it, if there are any: their
    /// frames from the store, their entries from the index.
    #[verifier::spinoff_prover]
    pub fn truncate(&mut self, from: u64)
        requires
            old(self).consistent(),
        ensures
            final(self).consistent(),
            final(self).base_offset == old(self).base_offset,
            final(self).config == old(self).config,
            final(self).store.path == old(self).store.path,
            final(self).index.path == old(self).index.path,
            final(self).next_offset == old(self).end_after_truncate(from),
            from >= old(self).next_offset ==> *final(self) == *old(self),
            forall|offset: u64| #[trigger]
                final(self).owns(offset) ==> final(self).spec_read(offset) == old(self).spec_read(
                    offset,
                ),
    {
        if from >= self.next_offset || self.next_offset == self.base_offset {
            return ;
        }
        let keep: u64 = if from <= self.base_offset {
            0
        } else {
            from - self.base_offset
        };
        assert(old(self).owns((self.base_offset + keep) as u64));
        assert(old(self).holds((self.base_offset + keep) as u64));
        let position: u64 = match self.index.read(keep as i64) {
            Ok((_, position)) => position,
            Err(_) => self.store.size,
        };
        self.index.truncate(keep);
        self.store.truncate(position);
        self.next_offset = self.base_offset + keep;
        proof {
            old(self).lemma_truncate(*self, keep as int);
        }
    }

    /// Whether the entries up to `n` are as `consistent` wants them: each
    /// leads to the record of its offset, and each frame ends at or before
    /// `end` and at or before the place where the frames of the later ones
    /// among them start.
    pub open spec fn checked_to(&self, n: int, end: int) -> bool {
        &&& forall|k: int| 0 <= k < n ==> #[trigger] self.holds((self.base_offset + k) as u64)
        &&& forall|k: int| 0 <= k < n ==> #[trigger] self.frame_end(k) <= end
        &&& forall|a: int, b: int|
            0 <= a < b < n ==> #[trigger] self.frame_end(a) <= (#[trigger] self.index.entry(b)).1
    }

    /// Whether every byte of the index map after its written part is zero.
    #[verifier::spinoff_prover]
    pub fn tail_is_blank(&self) -> (blank: bool)
        requires
            self.index.wf(),
        ensures
            blank == self.index.tail_blank(),
    {
        let len: usize = self.index.mmap.len();
        let mut i: usize = self.index.size as usize;
        while i < len
            invariant
                self.index.size <= i <= len == self.index.mmap@.len(),
                forall|j: int| self.index.size <= j < i ==> self.index.mmap@[j] == 0,
            decreases len - i,
        {
            if self.index.mmap[i] != 0 {
                return false;
            }
            i = i + 1;
        }
        true
    }

    /// Whether the segment is consistent: whether its files hold what a
    /// segment that was filled by appends holds.
    #[verifier::spinoff_prover]
    pub fn check(&self) -> (sound: bool)
        ensures
            sound == self.consistent(),
    {
        let data_len: usize = self.store.data.len();
        let map_len: usize = self.index.mmap.len();
        if self.store.size != data_len as u64 || self.index.size > map_len as u64 || self.index.size
            % 12 != 0 || self.base_offset > self.next_offset {
            return false;
        }
        let count: u64 = self.index.size / 12;
        if self.next_offset - self.base_offset != count {
            return false;
        }
        if !self.tail_is_blank() {
            return false;
        }
        if count == 0 {
            return self.store.size == 0;
        }
        let mut end: u64 = 0;
        let mut k: u64 = 0;
        while k < count
            invariant
                self.wf(),
                self.aligned(),
                self.index.tail_blank(),
                k <= count == self.index.entries(),
                count > 0,
                data_len == self.store.data@.len(),
                end <= self.store.size,
                k == 0 ==> end == 0,
                k > 0 ==> self.index.entry(0).1 == 0 && end == self.frame_end(k - 1),
                self.checked_to(k as int, end as int),
            decreases count - k,
        {
            let offset: u64 = self.base_offset + k;
            let (relative, position) = match self.index.read(k as i64) {
                Ok(entry) => entry,
                Err(_) => { return false; },
            };
            proof {
                if self.consistent() {
                    assert(self.owns(offset));
                    assert(self.holds(offset));
                    if k > 0 {
                        assert(self.frame_end(k - 1) <= self.index.entry(k as int).1);
                        assert(self.owns(self.base_offset));
                        assert(self.holds(self.base_offset));
                    }
                }
            }
            if relative as u64 != k || position < end || (k == 0 && position != 0) {
                proof {
                    if self.consistent() && position < end {
                        self.lemma_checked_end(k as int, end as int);
                    }
                }
                return false;
            }
            let record = match self.read(offset) {
                Ok(record) => record,
                Err(_) => { return false; },
            };
            if record.offset != offset {
                return false;
            }
            assert(self.spec_lookup(k as int) is Ok);
            assert(frame_at(self.store.data@, position as int) is Ok);
            let length: u64 = read_u64_be(&self.store.data, position as usize);
            let ghost before = end;
            end = position + 8 + length;
            proof {
                assert(self.holds(offset));
                assert(self.frame_end(k as int) == end);
                assert forall|a: int, b: int| 0 <= a < b < k + 1 implies #[trigger] self.frame_end(
                    a,
                ) <= (#[trigger] self.index.entry(b)).1 by {
                    if b == k {
                        assert(self.frame_end(a) <= before);
                    }
                }
            }
            k = k + 1;
        }
        proof {
            assert forall|offset: u64| #[trigger] self.owns(offset) implies self.holds(offset) by {
                let rel = offset - self.base_offset;
                assert(self.holds((self.base_offset + rel) as u64));
            }
        }
        true
    }

    /// In a consistent segment, where the frame of each of the first `n`
    /// entries ends at or before `end` and one of them ends there, the
    /// frame of entry `n` does not start before `end`.
    pub proof fn lemma_checked_end(self, n: int, end: int)
        requires
            self.consistent(),
            0 <= n < self.index.entries(),
            n == 0 ==> end == 0,
            n > 0 ==> end == self.frame_end(n - 1),
        ensures
            end <= self.index.entry(n).1,
    {
        if n > 0 {
            assert(self.frame_end(n - 1) <= self.index.entry(n).1);
        }
    }

    /// Whether the store or the index has reached its configured limit.
    pub fn is_maxed(&self) -> (b: bool)
        ensures
            b == self.spec_is_maxed(),
    {
        self.store.size >= self.config.segment.max_store_bytes || self.index.size
            >= self.config.segment.max_index_bytes
    }

    /// Closes the segment and drops the contents of both files: the segment
    /// then has no record.
    pub fn remove(&mut self) -> (r: Result<(), LogError>)
        ensures
            r is Ok,
            final(self).wf(),
            final(self).is_empty(),
            final(self).base_offset == old(self).base_offset,
            final(self).config == old(self).config,
            final(self).store.data@.len() == 0,
            final(self).index.mmap@.len() == 0,
            final(self).index.size == 0,
            final(self).store.path == old(self).store.path,
            final(self).index.path == old(self).index.path,
    {
        let _ = self.close();
        self.index.mmap.clear();
        self.index.size = 0;
        self.store.data.clear();
        self.store.size = 0;
        self.next_offset = self.base_offset;
        Ok(())
    }

    /// Closes the index, then the store. Both are images in memory that
    /// hold nothing unwritten, so closing them changes nothing and cannot
    /// fail: the segment stays as it is, its index map at its full length.
    pub fn close(&mut self) -> (r: Result<(), LogError>)
        ensures
            r is Ok,
            *final(self) == *old(self),
    {
        match self.index.close() {
            Ok(()) => {},
            Err(e) => { return Err(e); },
        }
        self.store.close()
    }
}

} // verus!
