//! The log: an ordered list of closed segments and one active segment.
//! Appends go to the active segment, which is closed and followed by a new
//! one when it is full; a read goes to the segment that owns the offset.

use crate::log::config::Config;
use crate::log::error::LogError;
use crate::log::index::{lemma_recovered_unique, opened_map};
use crate::log::names::{index_name, index_name_of, parse_store_name, store_base, store_name, store_name_of};
use crate::log::record::{encode_record, Record, RecordView};
use crate::log::segment;
use crate::log::segment::{can_open, opened_from, Segment};
use vstd::prelude::*;
use vstd::relations::{sorted_by, total_ordering};
use vstd::seq_lib::lemma_sorted_unique;
use vstd::slice::slice_to_vec;

verus! {

/// The log of one node.
#[derive(Debug)]
pub struct Log {
    /// The directory that holds the files of the segments.
    pub dir: String,
    pub config: Config,
    /// The segment that takes the appends.
    pub active_segment: Option<Segment>,
    /// The closed segments, by base offset.
    pub segments: Vec<Segment>,
}

/// The contents of one file of a log's directory.
#[derive(Debug)]
pub struct FileImage {
    /// The name of the file within the directory.
    pub name: String,
    /// The bytes of the file.
    pub data: Vec<u8>,
}

/// The order of base offsets.
pub open spec fn ascending() -> spec_fn(u64, u64) -> bool {
    |a: u64, b: u64| a <= b
}

/// The base offsets that the names of the store files among `files` give,
/// in the order of the files.
pub open spec fn store_bases(files: Seq<FileImage>) -> Seq<u64>
    decreases files.len(),
{
    if files.len() == 0 {
        Seq::empty()
    } else {
        let before = store_bases(files.drop_last());
        match store_base(files.last().name@) {
            Some(base) => before.push(base),
            None => before,
        }
    }
}

/// The place of the first of `files` that has the name `name`.
pub open spec fn file_index(files: Seq<FileImage>, name: Seq<char>) -> Option<int>
    decreases files.len(),
{
    if files.len() == 0 {
        None
    } else {
        match file_index(files.drop_last(), name) {
            Some(i) => Some(i),
            None => if files.last().name@ == name {
                Some(files.len() - 1)
            } else {
                None
            },
        }
    }
}

/// The bytes of the file named `name`, none if there is no such file.
pub open spec fn file_data(files: Seq<FileImage>, name: Seq<char>) -> Seq<u8> {
    match file_index(files, name) {
        Some(i) => files[i].data@,
        None => Seq::empty(),
    }
}

/// The base offsets of the segments that a log has after it was opened over
/// `files`: those of the store files in ascending order, or the initial
/// offset alone where there is no store file.
pub open spec fn opened_bases(files: Seq<FileImage>, conf: Config) -> Seq<u64> {
    let found = store_bases(files).sort_by(ascending());
    if found.len() == 0 {
        seq![conf.segment.initial_offset]
    } else {
        found
    }
}

/// Whether the segment at `base` can be opened over its files among `files`.
pub open spec fn can_open_at(files: Seq<FileImage>, conf: Config, base: u64) -> bool {
    can_open(
        base,
        conf,
        file_data(files, store_name_of(base)),
        file_data(files, index_name_of(base)),
    )
}

/// Whether `segment` is what opening the segment at `base` over its files
/// among `files` gives.
pub open spec fn opened_at(segment: Segment, files: Seq<FileImage>, conf: Config, base: u64) -> bool {
    opened_from(
        segment,
        base,
        conf,
        file_data(files, store_name_of(base)),
        file_data(files, index_name_of(base)),
    )
}

/// Whether the segment at `base` can be opened over its files among `files`
/// and `segment` is what that gives.
pub open spec fn opened_ok(segment: Segment, files: Seq<FileImage>, conf: Config, base: u64) -> bool {
    can_open_at(files, conf, base) && opened_at(segment, files, conf, base)
}

/// Whether each of `segments` is what opening the segment at the base
/// offset of the same place in `bases` gives.
pub open spec fn all_opened(
    segments: Seq<Segment>,
    files: Seq<FileImage>,
    conf: Config,
    bases: Seq<u64>,
) -> bool {
    forall|i: int|
        0 <= i < segments.len() ==> opened_ok(#[trigger] segments[i], files, conf, bases[i])
}

/// A log that is opened over no files has one segment, at the initial
/// offset, which can be opened exactly when its index map fits the address
/// space.
pub proof fn lemma_empty_directory(files: Seq<FileImage>, conf: Config)
    requires
        files.len() == 0,
    ensures
        opened_bases(files, conf) == seq![conf.segment.initial_offset],
        can_open_at(files, conf, conf.segment.initial_offset) <==> conf.segment.max_index_bytes
            <= usize::MAX,
{
    let found = store_bases(files);
    lemma_ascending_total();
    found.lemma_sort_by_ensures(ascending());
    vstd::seq_lib::to_multiset_len(found);
    vstd::seq_lib::to_multiset_len(found.sort_by(ascending()));
    assert(opened_bases(files, conf) =~= seq![conf.segment.initial_offset]);
    lemma_fresh_opens(conf.segment.initial_offset, conf);
}

/// `std`'s `sort` on a vector of `u64`: afterwards the vector holds the
/// same numbers as before, each as often as before, in ascending order.
#[verifier::external_body]
pub(crate) fn sort_offsets(offsets: &mut Vec<u64>)
    ensures
        sorted_by(final(offsets)@, ascending()),
        final(offsets)@.to_multiset() == old(offsets)@.to_multiset(),
{
    offsets.sort()
}

/// The order of `u64` is total.
pub proof fn lemma_ascending_total()
    ensures
        total_ordering(ascending()),
{
    let leq = ascending();
    assert(vstd::relations::reflexive(leq));
    assert(vstd::relations::antisymmetric(leq));
    assert(vstd::relations::transitive(leq));
    assert(vstd::relations::strongly_connected(leq));
}

/// The base offsets of the segments whose store files are among `files`, in
/// ascending order.
pub fn setup_log(files: &Vec<FileImage>) -> (base_offsets: Vec<u64>)
    ensures
        base_offsets@ == store_bases(files@).sort_by(ascending()),
{
    let mut base_offsets: Vec<u64> = Vec::new();
    let count: usize = files.len();
    let mut i: usize = 0;
    while i < count
        invariant
            i <= count == files@.len(),
            base_offsets@ == store_bases(files@.subrange(0, i as int)),
        decreases count - i,
    {
        let ghost next = files@.subrange(0, i + 1);
        assert(next.drop_last() =~= files@.subrange(0, i as int));
        assert(next.last() == files@[i as int]);
        match parse_store_name(files[i].name.as_str()) {
            Some(offset) => {
                base_offsets.push(offset);
            },
            None => {},
        }
        i = i + 1;
    }
    assert(files@.subrange(0, count as int) =~= files@);
    sort_offsets(&mut base_offsets);
    proof {
        let found = store_bases(files@);
        lemma_ascending_total();
        found.lemma_sort_by_ensures(ascending());
        lemma_sorted_unique(base_offsets@, found.sort_by(ascending()), ascending());
    }
    base_offsets
}

/// A copy of the bytes of the file named `name`, none if there is no such
/// file.
pub fn read_file(files: &Vec<FileImage>, name: &String) -> (data: Vec<u8>)
    ensures
        data@ == file_data(files@, name@),
{
    let count: usize = files.len();
    let mut i: usize = 0;
    while i < count
        invariant
            i <= count == files@.len(),
            file_index(files@.subrange(0, i as int), name@) is None,
        decreases count - i,
    {
        let ghost next = files@.subrange(0, i + 1);
        assert(next.drop_last() =~= files@.subrange(0, i as int));
        assert(next.last() == files@[i as int]);
        if files[i].name == *name {
            proof {
                lemma_file_index_prefix(files@, name@, i as int);
            }
            return slice_to_vec(files[i].data.as_slice());
        }
        i = i + 1;
    }
    assert(files@.subrange(0, count as int) =~= files@);
    Vec::new()
}

/// The first file of a name among the first files is the first among all.
pub proof fn lemma_file_index_prefix(files: Seq<FileImage>, name: Seq<char>, i: int)
    requires
        0 <= i < files.len(),
        file_index(files.subrange(0, i + 1), name) == Some(i),
    ensures
        file_index(files, name) == Some(i),
    decreases files.len(),
{
    if files.len() > i + 1 {
        assert(files.drop_last().subrange(0, i + 1) =~= files.subrange(0, i + 1));
        lemma_file_index_prefix(files.drop_last(), name, i);
    } else {
        assert(files.subrange(0, i + 1) =~= files);
    }
}

/// The first of `segments` that owns `offset`.
pub open spec fn owner_in(segments: Seq<Segment>, offset: u64) -> Option<int>
    decreases segments.len(),
{
    if segments.len() == 0 {
        None
    } else {
        match owner_in(segments.drop_last(), offset) {
            Some(i) => Some(i),
            None => if segments.last().owns(offset) {
                Some(segments.len() - 1)
            } else {
                None
            },
        }
    }
}

/// `owner_in` finds an owner, and none comes before it.
pub proof fn lemma_owner_in(segments: Seq<Segment>, offset: u64)
    ensures
        match owner_in(segments, offset) {
            Some(i) => 0 <= i < segments.len() && segments[i].owns(offset) && forall|j: int|
                0 <= j < i ==> !(#[trigger] segments[j]).owns(offset),
            None => forall|j: int| 0 <= j < segments.len() ==> !(#[trigger] segments[j]).owns(offset),
        },
    decreases segments.len(),
{
    if segments.len() > 0 {
        let front = segments.drop_last();
        lemma_owner_in(front, offset);
        assert forall|j: int| 0 <= j < front.len() implies front[j] == segments[j] by {}
        match owner_in(front, offset) {
            Some(i) => {
                assert forall|j: int| 0 <= j < i implies !(#[trigger] segments[j]).owns(offset) by {
                    assert(front[j] == segments[j]);
                }
            },
            None => {
                assert forall|j: int| 0 <= j < segments.len() - 1 implies !(
                #[trigger] segments[j]).owns(offset) by {
                    assert(front[j] == segments[j]);
                }
            },
        }
    }
}

/// The first owner is the one segment that owns the offset and has no
/// owner before it.
pub proof fn lemma_owner_is(segments: Seq<Segment>, offset: u64, i: int)
    requires
        0 <= i < segments.len(),
        segments[i].owns(offset),
        forall|j: int| 0 <= j < i ==> !(#[trigger] segments[j]).owns(offset),
    ensures
        owner_in(segments, offset) == Some(i),
{
    lemma_owner_in(segments, offset);
}

/// Where no segment owns the offset, there is no owner.
pub proof fn lemma_owner_none(segments: Seq<Segment>, offset: u64)
    requires
        forall|j: int| 0 <= j < segments.len() ==> !(#[trigger] segments[j]).owns(offset),
    ensures
        owner_in(segments, offset) is None,
{
    lemma_owner_in(segments, offset);
}

/// Whether a new segment at `base` can be opened and can take a record
/// whose serialized form has `len` bytes.
pub open spec fn fresh_accepts(base: u64, conf: Config, len: int) -> bool {
    &&& conf.segment.max_index_bytes <= usize::MAX
    &&& conf.segment.max_index_bytes >= 12
    &&& base < u64::MAX
    &&& 8 + len <= u64::MAX
}

/// Whether `segment` is a new segment at `base`: opened over no files.
pub open spec fn is_fresh(segment: Segment, base: u64, conf: Config) -> bool {
    opened_from(segment, base, conf, Seq::empty(), Seq::empty())
}

/// A new segment is empty and consistent, and takes what `fresh_accepts`
/// says.
pub proof fn lemma_fresh(segment: Segment, base: u64, conf: Config)
    requires
        is_fresh(segment, base, conf),
    ensures
        segment.consistent(),
        segment.is_empty(),
        segment.index.size == 0,
        segment.store.size == 0,
        segment.index.mmap@.len() == conf.segment.max_index_bytes,
        forall|len: int|
            conf.segment.max_index_bytes <= usize::MAX ==> (#[trigger] segment.can_append(len)
                <==> fresh_accepts(base, conf, len)),
{
    let map = opened_map(Seq::<u8>::empty(), conf.segment.max_index_bytes as int);
    lemma_recovered_unique(map, 0, 0);
}

impl Log {
    /// Every segment is well formed.
    pub open spec fn wf(&self) -> bool {
        &&& forall|i: int| 0 <= i < self.segments@.len() ==> (#[trigger] self.segments@[i]).wf()
        &&& self.active_segment is Some ==> self.active_segment->Some_0.wf()
    }

    /// The offset that the next record will get.
    pub open spec fn spec_next_offset(&self) -> u64 {
        match self.active_segment {
            Some(active) => active.next_offset,
            None => self.config.segment.initial_offset,
        }
    }

    /// The offset of the first record that the log can hold.
    pub open spec fn spec_first_offset(&self) -> u64 {
        if self.segments@.len() > 0 {
            self.segments@[0].base_offset
        } else {
            match self.active_segment {
                Some(active) => active.base_offset,
                None => self.config.segment.initial_offset,
            }
        }
    }

    /// The offset of the first record that the log can hold.
    pub fn first_offset(&self) -> (offset: u64)
        ensures
            offset == self.spec_first_offset(),
    {
        if self.segments.len() > 0 {
            self.segments[0].base_offset()
        } else {
            match &self.active_segment {
                Some(segment) => segment.base_offset(),
                None => self.config.segment.initial_offset,
            }
        }
    }

    /// The offset that the next record will get.
    pub fn next_offset(&self) -> (offset: u64)
        ensures
            offset == self.spec_next_offset(),
    {
        match &self.active_segment {
            Some(segment) => segment.next_offset(),
            None => self.config.segment.initial_offset,
        }
    }

    /// What `read` returns: what the first closed segment that owns the
    /// offset reads there, else what the active segment reads there.
    pub open spec fn spec_read(&self, offset: u64) -> Result<RecordView, LogError> {
        match owner_in(self.segments@, offset) {
            Some(i) => self.segments@[i].spec_read(offset),
            None => match self.active_segment {
                Some(active) => active.spec_read(offset),
                None => Err(LogError::NotFound),
            },
        }
    }

    /// The invariant of a log that was filled by appends: every segment is
    /// consistent, no closed segment is empty, and each segment starts where
    /// the one before it ends.
    pub open spec fn consistent(&self) -> bool {
        &&& self.wf()
        &&& forall|i: int|
            0 <= i < self.segments@.len() ==> (#[trigger] self.segments@[i]).consistent()
                && !self.segments@[i].is_empty()
        &&& forall|i: int|
            0 <= i < self.segments@.len() - 1 ==> (#[trigger] self.segments@[i]).next_offset
                == self.segments@[i + 1].base_offset
        &&& self.active_segment is None ==> self.segments@.len() == 0
        &&& self.active_segment is Some ==> {
            &&& self.active_segment->Some_0.consistent()
            &&& self.segments@.len() > 0 ==> self.segments@.last().next_offset
                == self.active_segment->Some_0.base_offset
        }
    }

    /// Whether an append must open a new segment: there is no active
    /// segment, or the active one holds records and is full or cannot take
    /// a record of `len` serialized bytes.
    pub open spec fn needs_fresh(&self, len: int) -> bool {
        match self.active_segment {
            None => true,
            Some(active) => !active.is_empty() && (active.spec_is_maxed() || !active.can_append(
                len,
            )),
        }
    }

    /// The closed segments after an append of a record of `len` serialized
    /// bytes: with the active segment as the last of them where the append
    /// opens a new segment.
    pub open spec fn closed_after_append(&self, len: int) -> Seq<Segment> {
        if self.needs_fresh(len) {
            match self.active_segment {
                Some(closed) => self.segments@.push(closed),
                None => self.segments@,
            }
        } else {
            self.segments@
        }
    }

    /// Whether `active` is the active segment after an append of `record`:
    /// the active segment, or a new segment where the append opens one,
    /// with the record appended to it.
    pub open spec fn took(&self, active: Segment, record: RecordView) -> bool {
        if self.needs_fresh(encode_record(record).len() as int) {
            exists|fresh: Segment| #[trigger]
                is_fresh(fresh, self.spec_next_offset(), self.config) && fresh.appended(
                    active,
                    record,
                )
        } else {
            self.active_segment->Some_0.appended(active, record)
        }
    }

    /// Whether an append of a record of `len` serialized bytes succeeds.
    pub open spec fn accepts(&self, len: int) -> bool {
        if self.needs_fresh(len) {
            fresh_accepts(self.spec_next_offset(), self.config, len)
        } else {
            self.active_segment->Some_0.can_append(len)
        }
    }

    /// The error of an append that fails.
    pub open spec fn refusal(&self, len: int) -> LogError {
        if self.needs_fresh(len) && self.config.segment.max_index_bytes > usize::MAX {
            LogError::InvalidInput
        } else {
            LogError::SegmentFull
        }
    }

    /// The segments in order: the closed ones, then the active one.
    pub open spec fn all_segments(&self) -> Seq<Segment> {
        match self.active_segment {
            Some(active) => self.segments@.push(active),
            None => self.segments@,
        }
    }

    /// Opens the log over the files found in its directory: one segment for
    /// each store file, in the order of their base offsets, the last of them
    /// the active one. Where there is no store file, the log starts with one
    /// segment at the initial offset. A limit given as zero is replaced by
    /// the default.
    #[verifier::spinoff_prover]
    pub fn new(dir: String, config: Config, files: Vec<FileImage>) -> (r: Result<Log, LogError>)
        ensures
            files@.len() == 0 ==> (r is Ok <==> config.spec_with_defaults().segment.max_index_bytes
                <= usize::MAX),
            match r {
                Ok(log) => {
                    let conf = config.spec_with_defaults();
                    let bases = opened_bases(files@, conf);
                    &&& log.wf()
                    &&& log.dir == dir
                    &&& log.config == conf
                    &&& log.active_segment is Some
                    &&& log.all_segments().len() == bases.len()
                    &&& all_opened(log.all_segments(), files@, conf, bases)
                    &&& files@.len() == 0 ==> {
                        &&& log.consistent()
                        &&& log.spec_next_offset() == conf.segment.initial_offset
                        &&& log.segments@.len() == 0
                        &&& is_fresh(
                            log.active_segment->Some_0,
                            conf.segment.initial_offset,
                            conf,
                        )
                    }
                },
                Err(e) => {
                    let conf = config.spec_with_defaults();
                    let bases = opened_bases(files@, conf);
                    &&& e == LogError::InvalidInput
                    &&& exists|i: int|
                        0 <= i < bases.len() && !can_open_at(files@, conf, #[trigger] bases[i])
                },
            },
    {
        let conf = config.with_defaults();
        let mut base_offsets = setup_log(&files);
        if base_offsets.len() == 0 {
            base_offsets.push(conf.segment.initial_offset);
        }
        assert(base_offsets@ =~= opened_bases(files@, conf));
        let mut segments: Vec<Segment> = Vec::new();
        let count: usize = base_offsets.len();
        let mut i: usize = 0;
        while i < count
            invariant
                i <= count == base_offsets@.len(),
                segments@.len() == i,
                conf == config.spec_with_defaults(),
                base_offsets@ == opened_bases(files@, conf),
                all_opened(segments@, files@, conf, base_offsets@),
            decreases count - i,
        {
            let offset: u64 = base_offsets[i];
            let store_bytes = read_file(&files, &store_name(offset));
            let index_bytes = read_file(&files, &index_name(offset));
            let segment = match segment::new(offset, conf, store_bytes, index_bytes) {
                Ok(segment) => segment,
                Err(e) => {
                    assert(!can_open_at(files@, conf, base_offsets@[i as int]));
                    proof {
                        if files@.len() == 0 {
                            lemma_empty_directory(files@, conf);
                        }
                    }
                    return Err(e);
                },
            };
            let ghost before = segments@;
            segments.push(segment);
            assert forall|j: int| 0 <= j < segments@.len() implies opened_ok(
                #[trigger] segments@[j],
                files@,
                conf,
                base_offsets@[j],
            ) by {
                if j < i {
                    assert(segments@[j] == before[j]);
                    assert(opened_ok(before[j], files@, conf, base_offsets@[j]));
                }
            }
            i = i + 1;
        }
        let ghost all = segments@;
        let active_segment = segments.pop();
        let log = Log { dir, config: conf, active_segment, segments };
        assert(log.all_segments() =~= all);
        assert forall|j: int| 0 <= j < log.segments@.len() implies (
        #[trigger] log.segments@[j]).wf() by {
            assert(log.segments@[j] == all[j]);
            assert(opened_ok(all[j], files@, conf, base_offsets@[j]));
        }
        assert(opened_ok(all[count - 1], files@, conf, base_offsets@[count - 1]));
        proof {
            if files@.len() == 0 {
                lemma_empty_directory(files@, conf);
                assert(count == 1);
                assert(opened_ok(all[0], files@, conf, conf.segment.initial_offset));
                lemma_fresh(all[0], conf.segment.initial_offset, conf);
            }
        }
        Ok(log)
    }

    /// The contents of the files of the log's directory: for each segment
    /// in order its store file, then its index file.
    pub fn files(&self) -> (files: Vec<FileImage>)
        ensures
            is_export(files@, self.all_segments()),
    {
        let mut files: Vec<FileImage> = Vec::new();
        let count: usize = self.segments.len();
        let mut i: usize = 0;
        while i < count
            invariant
                i <= count == self.segments@.len(),
                is_export(files@, self.segments@.subrange(0, i as int)),
            decreases count - i,
        {
            let ghost before = files@;
            export_segment(&self.segments[i], &mut files);
            proof {
                lemma_export_push(before, files@, self.segments@.subrange(0, i as int),
                    self.segments@[i as int]);
                assert(self.segments@.subrange(0, i as int).push(self.segments@[i as int])
                    =~= self.segments@.subrange(0, i + 1));
            }
            i = i + 1;
        }
        assert(self.segments@.subrange(0, count as int) =~= self.segments@);
        match &self.active_segment {
            Some(segment) => {
                let ghost before = files@;
                export_segment(segment, &mut files);
                proof {
                    lemma_export_push(before, files@, self.segments@, *segment);
                }
            },
            None => {},
        }
        files
    }

    /// Reads the record at `offset`.
    pub fn read(&self, offset: u64) -> (r: Result<Record, LogError>)
        requires
            self.wf(),
        ensures
            match r {
                Ok(record) => self.spec_read(offset) == Ok::<RecordView, LogError>(record@),
                Err(e) => self.spec_read(offset) == Err::<RecordView, LogError>(e),
            },
    {
        let count: usize = self.segments.len();
        let mut i: usize = 0;
        while i < count
            invariant
                i <= count == self.segments@.len(),
                self.wf(),
                forall|j: int| 0 <= j < i ==> !(#[trigger] self.segments@[j]).owns(offset),
            decreases count - i,
        {
            let segment = &self.segments[i];
            if offset >= segment.base_offset() && offset < segment.next_offset() {
                proof {
                    lemma_owner_is(self.segments@, offset, i as int);
                }
                return segment.read(offset);
            }
            i = i + 1;
        }
        proof {
            lemma_owner_none(self.segments@, offset);
        }
        match &self.active_segment {
            Some(segment) => segment.read(offset),
            None => Err(LogError::NotFound),
        }
    }

    /// Closes the active segment and opens a new one where it ends, or at
    /// the initial offset if there is none.
    pub fn new_segment(&mut self) -> (r: Result<(), LogError>)
        requires
            old(self).wf(),
        ensures
            final(self).wf(),
            final(self).dir == old(self).dir,
            final(self).config == old(self).config,
            match r {
                Ok(()) => {
                    &&& old(self).config.segment.max_index_bytes <= usize::MAX
                    &&& final(self).active_segment is Some
                    &&& is_fresh(
                        final(self).active_segment->Some_0,
                        old(self).spec_next_offset(),
                        old(self).config,
                    )
                    &&& final(self).segments@ == match old(self).active_segment {
                        Some(closed) => old(self).segments@.push(closed),
                        None => old(self).segments@,
                    }
                },
                Err(e) => {
                    &&& old(self).config.segment.max_index_bytes > usize::MAX
                    &&& e == LogError::InvalidInput
                    &&& *final(self) == *old(self)
                },
            },
    {
        let base_offset: u64 = match &self.active_segment {
            Some(segment) => segment.next_offset(),
            None => self.config.segment.initial_offset,
        };
        let new_segment = match segment::new(base_offset, self.config, Vec::new(), Vec::new()) {
            Ok(segment) => segment,
            Err(e) => {
                proof {
                    lemma_fresh_opens(base_offset, self.config);
                }
                return Err(e);
            },
        };
        proof {
            lemma_fresh_opens(base_offset, self.config);
        }
        self.install(new_segment);
        Ok(())
    }

    /// Moves the active segment to the closed ones and makes `segment` the
    /// active one.
    fn install(&mut self, segment: Segment)
        requires
            old(self).wf(),
            segment.wf(),
        ensures
            final(self).wf(),
            final(self).dir == old(self).dir,
            final(self).config == old(self).config,
            final(self).active_segment == Some(segment),
            final(self).segments@ == match old(self).active_segment {
                Some(closed) => old(self).segments@.push(closed),
                None => old(self).segments@,
            },
    {
        match self.active_segment.take() {
            Some(closed) => {
                self.segments.push(closed);
            },
            None => {},
        }
        self.active_segment = Some(segment);
    }

    /// Appends a record to the active segment. A log whose active segment
    /// cannot take the record is left as it was.
    #[verifier::spinoff_prover]
    pub fn append_in_place(&mut self, record: &mut Record) -> (r: Result<u64, LogError>)
        requires
            old(self).wf(),
            old(self).active_segment is Some,
        ensures
            final(self).wf(),
            final(self).dir == old(self).dir,
            final(self).config == old(self).config,
            final(self).segments == old(self).segments,
            final(self).active_segment is Some,
            final(record)@ == (RecordView {
                value: old(record)@.value,
                offset: old(self).spec_next_offset(),
            }),
            old(self).consistent() ==> final(self).consistent(),
            final(self).spec_first_offset() == old(self).spec_first_offset(),
            match r {
                Ok(offset) => {
                    &&& old(self).active_segment->Some_0.can_append(
                        encode_record(final(record)@).len() as int,
                    )
                    &&& old(self).active_segment->Some_0.appended(
                        final(self).active_segment->Some_0,
                        final(record)@,
                    )
                    &&& offset == old(self).spec_next_offset()
                    &&& final(self).spec_next_offset() == offset + 1
                    &&& old(self).consistent() ==> final(self).spec_read(offset) == Ok::<
                        RecordView,
                        LogError,
                    >(final(record)@)
                    &&& forall|other: u64| #[trigger]
                        old(self).spec_read(other) is Ok ==> final(self).spec_read(other) == old(
                            self,
                        ).spec_read(other)
                },
                Err(e) => {
                    &&& !old(self).active_segment->Some_0.can_append(
                        encode_record(final(record)@).len() as int,
                    )
                    &&& e == LogError::SegmentFull
                    &&& *final(self) == *old(self)
                },
            },
    {
        let mut segment = match self.active_segment.take() {
            Some(segment) => segment,
            None => { return Err(LogError::SegmentFull); },
        };
        let result = segment.append(record);
        self.active_segment = Some(segment);
        match result {
            Ok(offset) => {
                proof {
                    old(self).lemma_append_in_place(*self, offset, record@);
                }
                Ok(offset)
            },
            Err(e) => Err(e),
        }
    }

    /// Appends a record to a new segment that starts where the active
    /// segment ends, or at the initial offset if there is none, and makes
    /// it the active segment, the one before it the last of the closed
    /// ones. A log whose new segment cannot be opened or cannot take the
    /// record is left as it was.
    #[verifier::spinoff_prover]
    pub fn append_rotated(&mut self, record: &mut Record) -> (r: Result<u64, LogError>)
        requires
            old(self).wf(),
            old(self).active_segment is Some ==> !old(self).active_segment->Some_0.is_empty(),
        ensures
            final(self).wf(),
            final(self).dir == old(self).dir,
            final(self).config == old(self).config,
            final(record)@ == (RecordView {
                value: old(record)@.value,
                offset: old(self).spec_next_offset(),
            }),
            old(self).consistent() ==> final(self).consistent(),
            old(self).active_segment is Some ==> final(self).spec_first_offset() == old(
                self,
            ).spec_first_offset(),
            match r {
                Ok(offset) => {
                    &&& fresh_accepts(
                        old(self).spec_next_offset(),
                        old(self).config,
                        encode_record(final(record)@).len() as int,
                    )
                    &&& offset == old(self).spec_next_offset()
                    &&& final(self).spec_next_offset() == offset + 1
                    &&& final(self).active_segment is Some
                    &&& final(self).segments@ == match old(self).active_segment {
                        Some(closed) => old(self).segments@.push(closed),
                        None => old(self).segments@,
                    }
                    &&& exists|fresh: Segment| #[trigger]
                        is_fresh(fresh, offset, old(self).config) && fresh.appended(
                            final(self).active_segment->Some_0,
                            final(record)@,
                        )
                    &&& old(self).consistent() ==> final(self).spec_read(offset) == Ok::<
                        RecordView,
                        LogError,
                    >(final(record)@)
                    &&& forall|other: u64| #[trigger]
                        old(self).spec_read(other) is Ok ==> final(self).spec_read(other) == old(
                            self,
                        ).spec_read(other)
                },
                Err(e) => {
                    &&& !fresh_accepts(
                        old(self).spec_next_offset(),
                        old(self).config,
                        encode_record(final(record)@).len() as int,
                    )
                    &&& e == if old(self).config.segment.max_index_bytes > usize::MAX {
                        LogError::InvalidInput
                    } else {
                        LogError::SegmentFull
                    }
                    &&& *final(self) == *old(self)
                },
            },
    {
        let base_offset: u64 = self.next_offset();
        match open_with(base_offset, self.config, record) {
            Ok(segment) => {
                self.install(segment);
                proof {
                    old(self).lemma_append_rotated(*self, base_offset, record@);
                    if old(self).active_segment is Some {
                        old(self).lemma_rotation_keeps_first(*self);
                    }
                }
                Ok(base_offset)
            },
            Err(e) => Err(e),
        }
    }

    /// A log with its active segment closed and a new one after it starts
    /// where it started.
    pub proof fn lemma_rotation_keeps_first(self, after: Log)
        requires
            self.active_segment is Some,
            after.active_segment is Some,
            after.segments@ == self.segments@.push(self.active_segment->Some_0),
        ensures
            after.spec_first_offset() == self.spec_first_offset(),
    {
        if self.segments@.len() > 0 {
            assert(after.segments@[0] == self.segments@[0]);
        }
    }

    /// Appends a record and returns the offset that it was given. The
    /// record goes to the active segment; where that one holds records and
    /// is full, or cannot take this record, it is closed and the record goes
    /// to a new segment that starts where it ends. A log that cannot take
    /// the record is left as it was.
    #[verifier::spinoff_prover]
    pub fn append(&mut self, record: &mut Record) -> (r: Result<u64, LogError>)
        requires
            old(self).wf(),
        ensures
            final(self).wf(),
            final(self).dir == old(self).dir,
            final(self).config == old(self).config,
            final(record)@ == (RecordView {
                value: old(record)@.value,
                offset: old(self).spec_next_offset(),
            }),
            old(self).consistent() ==> final(self).consistent(),
            old(self).active_segment is Some ==> final(self).spec_first_offset() == old(
                self,
            ).spec_first_offset(),
            match r {
                Ok(offset) => {
                    &&& old(self).accepts(encode_record(final(record)@).len() as int)
                    &&& offset == old(self).spec_next_offset()
                    &&& final(self).spec_next_offset() == offset + 1
                    &&& final(self).active_segment is Some
                    &&& final(self).segments@ == old(self).closed_after_append(
                        encode_record(final(record)@).len() as int,
                    )
                    &&& old(self).took(
                        final(self).active_segment->Some_0,
                        final(record)@,
                    )
                    &&& old(self).consistent() ==> final(self).spec_read(offset) == Ok::<
                        RecordView,
                        LogError,
                    >(final(record)@)
                    &&& forall|other: u64| #[trigger]
                        old(self).spec_read(other) is Ok ==> final(self).spec_read(other) == old(
                            self,
                        ).spec_read(other)
                },
                Err(e) => {
                    &&& !old(self).accepts(encode_record(final(record)@).len() as int)
                    &&& e == old(self).refusal(encode_record(final(record)@).len() as int)
                    &&& *final(self) == *old(self)
                },
            },
    {
        let (holds_records, maxed): (bool, bool) = match &self.active_segment {
            None => (false, false),
            Some(segment) => (segment.next_offset() > segment.base_offset(), segment.is_maxed()),
        };
        if self.active_segment.is_none() || (holds_records && maxed) {
            return self.append_rotated(record);
        }
        match self.append_in_place(record) {
            Ok(offset) => Ok(offset),
            Err(e) => {
                if holds_records {
                    self.append_rotated(record)
                } else {
                    Err(e)
                }
            },
        }
    }

    /// An append to the active segment keeps what could be read and makes
    /// the new record readable.
    #[verifier::spinoff_prover]
    pub proof fn lemma_append_in_place(self, after: Log, offset: u64, record: RecordView)
        requires
            self.wf(),
            self.active_segment is Some,
            after.active_segment is Some,
            after.segments == self.segments,
            after.config == self.config,
            after.dir == self.dir,
            ({
                let old_active = self.active_segment->Some_0;
                let new_active = after.active_segment->Some_0;
                &&& new_active.wf()
                &&& new_active.base_offset == old_active.base_offset
                &&& new_active.next_offset == offset + 1
                &&& offset == old_active.next_offset
                &&& old_active.consistent() ==> new_active.consistent()
                &&& old_active.aligned() ==> new_active.spec_read(offset) == Ok::<
                    RecordView,
                    LogError,
                >(record)
                &&& forall|other: u64| #[trigger]
                    old_active.owns(other) && old_active.spec_read(other) is Ok
                        ==> new_active.spec_read(other) == old_active.spec_read(other)
            }),
        ensures
            after.wf(),
            self.consistent() ==> after.consistent(),
            self.consistent() ==> after.spec_read(offset) == Ok::<RecordView, LogError>(record),
            forall|other: u64| #[trigger]
                self.spec_read(other) is Ok ==> after.spec_read(other) == self.spec_read(other),
    {
        let old_active = self.active_segment->Some_0;
        let new_active = after.active_segment->Some_0;
        assert forall|other: u64| #[trigger] self.spec_read(other) is Ok implies after.spec_read(
            other,
        ) == self.spec_read(other) by {
            if owner_in(self.segments@, other) is None {
                assert(old_active.owns(other));
            }
        }
        if self.consistent() {
            self.lemma_closed_end_before_active(offset);
        }
    }

    /// In a consistent log no closed segment owns an offset at or after the
    /// base of the active segment.
    pub proof fn lemma_closed_end_before_active(self, offset: u64)
        requires
            self.consistent(),
            self.active_segment is Some,
            offset >= self.active_segment->Some_0.base_offset,
        ensures
            owner_in(self.segments@, offset) is None,
    {
        let segments = self.segments@;
        let n = segments.len() as int;
        if n > 0 {
            self.lemma_bases_increase(0, n - 1);
            assert forall|j: int| 0 <= j < n implies !(#[trigger] segments[j]).owns(offset) by {
                self.lemma_bases_increase(j, n - 1);
            }
        }
        lemma_owner_none(segments, offset);
    }

    /// In a consistent log a closed segment ends at or before the end of
    /// every closed segment after it.
    pub proof fn lemma_bases_increase(self, i: int, j: int)
        requires
            self.consistent(),
            0 <= i <= j < self.segments@.len(),
        ensures
            self.segments@[i].next_offset <= self.segments@[j].next_offset,
            i < j ==> self.segments@[i].next_offset <= self.segments@[j].base_offset,
        decreases j - i,
    {
        if i < j {
            self.lemma_bases_increase(i, j - 1);
            assert(self.segments@[j - 1].next_offset == self.segments@[j].base_offset);
            assert(self.segments@[j].wf());
        }
    }

    /// An append that closed the active segment and went to a new one keeps
    /// what could be read and makes the new record readable.
    #[verifier::spinoff_prover]
    pub proof fn lemma_append_rotated(self, after: Log, offset: u64, record: RecordView)
        requires
            self.wf(),
            self.active_segment is Some ==> !self.active_segment->Some_0.is_empty(),
            offset == self.spec_next_offset(),
            after.config == self.config,
            after.dir == self.dir,
            after.active_segment is Some,
            after.segments@ == match self.active_segment {
                Some(closed) => self.segments@.push(closed),
                None => self.segments@,
            },
            ({
                let new_active = after.active_segment->Some_0;
                &&& new_active.wf()
                &&& new_active.consistent()
                &&& new_active.base_offset == offset
                &&& new_active.next_offset == offset + 1
                &&& new_active.spec_read(offset) == Ok::<RecordView, LogError>(record)
            }),
        ensures
            after.wf(),
            self.consistent() ==> after.consistent(),
            self.consistent() ==> after.spec_read(offset) == Ok::<RecordView, LogError>(record),
            forall|other: u64| #[trigger]
                self.spec_read(other) is Ok ==> after.spec_read(other) == self.spec_read(other),
    {
        let before = self.segments@;
        let now = after.segments@;
        assert forall|i: int| 0 <= i < now.len() implies (#[trigger] now[i]).wf() by {
            if i < before.len() {
                assert(now[i] == before[i]);
            }
        }
        assert forall|other: u64| #[trigger] self.spec_read(other) is Ok implies after.spec_read(
            other,
        ) == self.spec_read(other) by {
            lemma_owner_in(before, other);
            match owner_in(before, other) {
                Some(i) => {
                    assert forall|j: int| 0 <= j < i implies !(#[trigger] now[j]).owns(other) by {
                        assert(now[j] == before[j]);
                    }
                    assert(now[i] == before[i]);
                    lemma_owner_is(now, other, i);
                },
                None => {
                    let closed = self.active_segment->Some_0;
                    assert(closed.owns(other));
                    let last = now.len() - 1;
                    assert(now[last] == closed);
                    assert forall|j: int| 0 <= j < last implies !(#[trigger] now[j]).owns(
                        other,
                    ) by {
                        assert(now[j] == before[j]);
                    }
                    lemma_owner_is(now, other, last);
                },
            }
        }
        if self.consistent() {
            assert forall|i: int| 0 <= i < now.len() implies (#[trigger] now[i]).consistent()
                && !now[i].is_empty() by {
                if i < before.len() {
                    assert(now[i] == before[i]);
                }
            }
            assert forall|i: int| 0 <= i < now.len() - 1 implies (#[trigger] now[i]).next_offset
                == now[i + 1].base_offset by {
                assert(now[i] == before[i]);
                if i + 1 < before.len() {
                    assert(now[i + 1] == before[i + 1]);
                } else {
                    assert(before.last() == before[i]);
                }
            }
            assert(after.consistent());
            after.lemma_closed_end_before_active(offset);
        }
    }

    /// The next offset of the log after the records at `from` and after it
    /// were dropped.
    pub open spec fn end_after_truncate(&self, from: u64) -> u64 {
        if self.active_segment is None || from >= self.spec_next_offset() {
            self.spec_next_offset()
        } else if from <= self.spec_first_offset() {
            self.spec_first_offset()
        } else {
            from
        }
    }

    /// Whether `after` is the log without its active segment, the last of
    /// its closed segments active in its place.
    pub open spec fn stepped_back(self, after: Log) -> bool {
        &&& self.segments@.len() > 0
        &&& after.dir == self.dir
        &&& after.config == self.config
        &&& after.segments@ == self.segments@.drop_last()
        &&& after.active_segment == Some(self.segments@.last())
    }

    /// A consistent log without its active segment, the closed segment
    /// before it active in its place, is consistent, ends where the dropped
    /// segment started and reads below that what it read before.
    #[verifier::spinoff_prover]
    pub proof fn lemma_step_back(self, after: Log)
        requires
            self.consistent(),
            self.active_segment is Some,
            self.stepped_back(after),
        ensures
            after.consistent(),
            after.spec_next_offset() == self.active_segment->Some_0.base_offset,
            after.spec_first_offset() == self.spec_first_offset(),
            forall|offset: u64|
                offset < after.spec_next_offset() ==> #[trigger] after.spec_read(offset)
                    == self.spec_read(offset),
    {
        let before = self.segments@;
        let now = after.segments@;
        let last = before.len() - 1;
        assert forall|i: int| 0 <= i < now.len() implies now[i] == before[i] by {}
        assert(before[last].consistent() && !before[last].is_empty());
        assert forall|i: int| 0 <= i < now.len() implies (#[trigger] now[i]).consistent()
            && !now[i].is_empty() by {
            assert(now[i] == before[i]);
        }
        assert forall|i: int| 0 <= i < now.len() - 1 implies (#[trigger] now[i]).next_offset
            == now[i + 1].base_offset by {
            assert(now[i] == before[i]);
            assert(now[i + 1] == before[i + 1]);
        }
        if now.len() > 0 {
            assert(now.last() == before[last - 1]);
            assert(before[last - 1].next_offset == before[last].base_offset);
        }
        assert forall|i: int| 0 <= i < now.len() implies (#[trigger] now[i]).wf() by {
            assert(now[i] == before[i]);
        }
        assert forall|offset: u64| offset < after.spec_next_offset() implies #[trigger]
            after.spec_read(offset) == self.spec_read(offset) by {
            lemma_owner_in(before, offset);
            lemma_owner_in(now, offset);
            match owner_in(before, offset) {
                Some(i) => {
                    if i < last {
                        assert(now[i] == before[i]);
                        assert forall|j: int| 0 <= j < i implies !(#[trigger] now[j]).owns(
                            offset,
                        ) by {
                            assert(now[j] == before[j]);
                        }
                        lemma_owner_is(now, offset, i);
                    } else {
                        assert forall|j: int| 0 <= j < now.len() implies !(
                        #[trigger] now[j]).owns(offset) by {
                            assert(now[j] == before[j]);
                        }
                        lemma_owner_none(now, offset);
                    }
                },
                None => {
                    assert forall|j: int| 0 <= j < now.len() implies !(#[trigger] now[j]).owns(
                        offset,
                    ) by {
                        assert(now[j] == before[j]);
                    }
                    lemma_owner_none(now, offset);
                    assert(!before[last].owns(offset));
                },
            }
        }
    }

    /// Drops the records at `from` and after it, if there are any. A
    /// segment that is left without records is dropped with them, if it is
    /// not the first.
    #[verifier::spinoff_prover]
    pub fn truncate(&mut self, from: u64)
        requires
            old(self).consistent(),
        ensures
            final(self).consistent(),
            final(self).dir == old(self).dir,
            final(self).config == old(self).config,
            final(self).active_segment is Some <==> old(self).active_segment is Some,
            final(self).spec_next_offset() == old(self).end_after_truncate(from),
            final(self).spec_first_offset() == old(self).spec_first_offset(),
            from >= old(self).spec_next_offset() ==> *final(self) == *old(self),
            forall|offset: u64|
                offset < final(self).spec_next_offset() ==> #[trigger] final(self).spec_read(
                    offset,
                ) == old(self).spec_read(offset),
    {
        let next: u64 = match &self.active_segment {
            Some(segment) => segment.next_offset(),
            None => { return ; },
        };
        if from >= next {
            return ;
        }
        loop
            invariant_except_break
                self.consistent(),
                self.active_segment is Some,
                self.dir == old(self).dir,
                self.config == old(self).config,
                old(self).consistent(),
                old(self).active_segment is Some,
                from < old(self).spec_next_offset(),
                from <= self.spec_next_offset() <= old(self).spec_next_offset(),
                self.spec_first_offset() == old(self).spec_first_offset(),
                forall|offset: u64|
                    offset < self.spec_next_offset() ==> #[trigger] self.spec_read(offset)
                        == old(self).spec_read(offset),
            ensures
                self.consistent(),
                self.active_segment is Some,
                self.dir == old(self).dir,
                self.config == old(self).config,
                self.spec_next_offset() == old(self).end_after_truncate(from),
                self.spec_first_offset() == old(self).spec_first_offset(),
                forall|offset: u64|
                    offset < self.spec_next_offset() ==> #[trigger] self.spec_read(offset)
                        == old(self).spec_read(offset),
            decreases self.segments@.len(),
        {
            let ghost before = *self;
            let mut active = match self.active_segment.take() {
                Some(segment) => segment,
                None => { break ; },
            };
            if self.segments.len() > 0 && from <= active.base_offset() {
                let _ = active.remove();
                self.active_segment = self.segments.pop();
                proof {
                    before.lemma_step_back(*self);
                }
            } else {
                let ghost kept = active;
                active.truncate(from);
                self.active_segment = Some(active);
                proof {
                    before.lemma_active_truncated(*self, from);
                    if before.segments@.len() > 0 {
                        before.lemma_all_first_base();
                    }
                }
                break ;
            }
        }
    }

    /// In a consistent log with closed segments, the first segment starts
    /// below the active one.
    pub proof fn lemma_all_first_base(self)
        requires
            self.consistent(),
            self.active_segment is Some,
            self.segments@.len() > 0,
        ensures
            self.spec_first_offset() < self.active_segment->Some_0.base_offset,
    {
        let n = self.segments@.len() as int;
        self.lemma_bases_increase(0, n - 1);
        assert(self.segments@[0].consistent() && !self.segments@[0].is_empty());
    }

    /// A consistent log whose active segment was cut back is consistent and
    /// reads below its new end what it read before.
    pub proof fn lemma_active_truncated(self, after: Log, from: u64)
        requires
            self.consistent(),
            self.active_segment is Some,
            after.active_segment is Some,
            after.dir == self.dir,
            after.config == self.config,
            after.segments == self.segments,
            ({
                let old_active = self.active_segment->Some_0;
                let new_active = after.active_segment->Some_0;
                &&& new_active.consistent()
                &&& new_active.base_offset == old_active.base_offset
                &&& new_active.next_offset <= old_active.next_offset
                &&& forall|offset: u64| #[trigger]
                    new_active.owns(offset) ==> new_active.spec_read(offset)
                        == old_active.spec_read(offset)
            }),
        ensures
            after.consistent(),
            after.spec_first_offset() == self.spec_first_offset(),
            forall|offset: u64|
                offset < after.spec_next_offset() ==> #[trigger] after.spec_read(offset)
                    == self.spec_read(offset),
    {
        let old_active = self.active_segment->Some_0;
        let new_active = after.active_segment->Some_0;
        assert forall|offset: u64| offset < after.spec_next_offset() implies #[trigger]
            after.spec_read(offset) == self.spec_read(offset) by {
            if owner_in(self.segments@, offset) is None {
                if new_active.owns(offset) {
                    assert(new_active.spec_read(offset) == old_active.spec_read(offset));
                }
            }
        }
    }

    /// Whether the log is consistent: whether its segments hold what the
    /// segments of a log that was filled by appends hold.
    #[verifier::spinoff_prover]
    pub fn check(&self) -> (sound: bool)
        ensures
            sound == self.consistent(),
    {
        let count: usize = self.segments.len();
        let active = match &self.active_segment {
            Some(active) => active,
            None => { return count == 0; },
        };
        if !active.check() {
            return false;
        }
        let mut i: usize = 0;
        while i < count
            invariant
                i <= count == self.segments@.len(),
                self.active_segment == Some(*active),
                active.consistent(),
                forall|j: int|
                    0 <= j < i ==> (#[trigger] self.segments@[j]).consistent()
                        && !self.segments@[j].is_empty(),
                forall|j: int|
                    0 <= j < i - 1 ==> (#[trigger] self.segments@[j]).next_offset
                        == self.segments@[j + 1].base_offset,
            decreases count - i,
        {
            let segment = &self.segments[i];
            if !segment.check() || segment.next_offset() == segment.base_offset() {
                return false;
            }
            if i > 0 && self.segments[i - 1].next_offset() != segment.base_offset() {
                return false;
            }
            i = i + 1;
        }
        if count > 0 && self.segments[count - 1].next_offset() != active.base_offset() {
            return false;
        }
        true
    }

    /// Closes every segment, drops their contents and the directory: the
    /// log then has no segment and no record.
    pub fn remove(&mut self) -> (r: Result<(), LogError>)
        ensures
            r is Ok,
            final(self).dir == old(self).dir,
            final(self).config == old(self).config,
            final(self).active_segment is None,
            final(self).segments@.len() == 0,
            final(self).consistent(),
            forall|offset: u64|
                #[trigger] final(self).spec_read(offset) == Err::<RecordView, LogError>(
                    LogError::NotFound,
                ),
    {
        match self.active_segment.take() {
            Some(segment) => {
                let mut segment = segment;
                let _ = segment.remove();
            },
            None => {},
        }
        while self.segments.len() > 0
            invariant
                self.dir == old(self).dir,
                self.config == old(self).config,
                self.active_segment is None,
            decreases self.segments@.len(),
        {
            match self.segments.pop() {
                Some(segment) => {
                    let mut segment = segment;
                    let _ = segment.remove();
                },
                None => {},
            }
        }
        Ok(())
    }

    /// Closes every segment, the active one first. The segments are images
    /// in memory that hold nothing unwritten, so closing them changes
    /// nothing and cannot fail: the log stays as it is, ready to be written
    /// out by `files`.
    pub fn close(&mut self) -> (r: Result<(), LogError>)
        ensures
            r is Ok,
            final(self).dir == old(self).dir,
            final(self).config == old(self).config,
            final(self).active_segment == old(self).active_segment,
            final(self).segments@ == old(self).segments@,
    {
        match self.active_segment.take() {
            Some(segment) => {
                let mut segment = segment;
                let _ = segment.close();
                self.active_segment = Some(segment);
            },
            None => {},
        }
        let count: usize = self.segments.len();
        let mut i: usize = 0;
        while i < count
            invariant
                i <= count == self.segments@.len(),
                self.dir == old(self).dir,
                self.config == old(self).config,
                self.active_segment == old(self).active_segment,
                self.segments@ == old(self).segments@,
            decreases count - i,
        {
            let _ = self.segments[i].close();
            assert(self.segments@ =~= old(self).segments@);
            i = i + 1;
        }
        Ok(())
    }
}

/// Whether `files` holds the files of `segments`: for each segment in order
/// its store file, then its index file, each under its name.
pub open spec fn is_export(files: Seq<FileImage>, segments: Seq<Segment>) -> bool {
    &&& files.len() == 2 * segments.len()
    &&& forall|i: int|
        0 <= i < segments.len() ==> {
            &&& (#[trigger] files[2 * i]).name@ == store_name_of(segments[i].base_offset)
            &&& files[2 * i].data@ == segments[i].store.data@
            &&& files[2 * i + 1].name@ == index_name_of(segments[i].base_offset)
            &&& files[2 * i + 1].data@ == segments[i].index.mmap@
        }
}

/// The files of some segments, followed by the two files of one more, are
/// the files of them all.
pub proof fn lemma_export_push(
    before: Seq<FileImage>,
    after: Seq<FileImage>,
    segments: Seq<Segment>,
    segment: Segment,
)
    requires
        is_export(before, segments),
        after.len() == before.len() + 2,
        after.subrange(0, before.len() as int) == before,
        after[before.len() as int].name@ == store_name_of(segment.base_offset),
        after[before.len() as int].data@ == segment.store.data@,
        after[before.len() as int + 1].name@ == index_name_of(segment.base_offset),
        after[before.len() as int + 1].data@ == segment.index.mmap@,
    ensures
        is_export(after, segments.push(segment)),
{
    let all = segments.push(segment);
    assert forall|i: int| 0 <= i < all.len() implies {
        &&& (#[trigger] after[2 * i]).name@ == store_name_of(all[i].base_offset)
        &&& after[2 * i].data@ == all[i].store.data@
        &&& after[2 * i + 1].name@ == index_name_of(all[i].base_offset)
        &&& after[2 * i + 1].data@ == all[i].index.mmap@
    } by {
        if i < segments.len() {
            assert(after[2 * i] == before[2 * i]);
            assert(after[2 * i + 1] == before[2 * i + 1]);
            assert(all[i] == segments[i]);
        }
    }
}

/// Appends the two files of `segment` to `files`.
fn export_segment(segment: &Segment, files: &mut Vec<FileImage>)
    ensures
        final(files)@.len() == old(files)@.len() + 2,
        final(files)@.subrange(0, old(files)@.len() as int) == old(files)@,
        final(files)@[old(files)@.len() as int].name@ == store_name_of(segment.base_offset),
        final(files)@[old(files)@.len() as int].data@ == segment.store.data@,
        final(files)@[old(files)@.len() as int + 1].name@ == index_name_of(segment.base_offset),
        final(files)@[old(files)@.len() as int + 1].data@ == segment.index.mmap@,
{
    files.push(
        FileImage {
            name: store_name(segment.base_offset),
            data: slice_to_vec(segment.store.data.as_slice()),
        },
    );
    files.push(
        FileImage {
            name: index_name(segment.base_offset),
            data: slice_to_vec(segment.index.mmap.as_slice()),
        },
    );
    assert(files@.subrange(0, old(files)@.len() as int) =~= old(files)@);
}

/// Opens a new segment at `base` and appends `record` to it.
#[verifier::spinoff_prover]
pub fn open_with(base: u64, conf: Config, record: &mut Record) -> (r: Result<Segment, LogError>)
    ensures
        final(record)@ == (RecordView { value: old(record)@.value, offset: base }),
        match r {
            Ok(segment) => {
                &&& fresh_accepts(base, conf, encode_record(final(record)@).len() as int)
                &&& exists|fresh: Segment| #[trigger]
                    is_fresh(fresh, base, conf) && fresh.appended(segment, final(record)@)
                &&& segment.consistent()
                &&& segment.config == conf
                &&& segment.base_offset == base
                &&& segment.next_offset == base + 1
                &&& segment.spec_read(base) == Ok::<RecordView, LogError>(final(record)@)
            },
            Err(e) => {
                &&& !fresh_accepts(base, conf, encode_record(final(record)@).len() as int)
                &&& e == if conf.segment.max_index_bytes > usize::MAX {
                    LogError::InvalidInput
                } else {
                    LogError::SegmentFull
                }
            },
        },
{
    proof {
        lemma_fresh_opens(base, conf);
    }
    let mut segment = match segment::new(base, conf, Vec::new(), Vec::new()) {
        Ok(segment) => segment,
        Err(e) => {
            record.offset = base;
            return Err(e);
        },
    };
    let ghost fresh = segment;
    proof {
        lemma_fresh(fresh, base, conf);
    }
    match segment.append(record) {
        Ok(_) => {
            assert(is_fresh(fresh, base, conf) && fresh.appended(segment, record@));
            Ok(segment)
        },
        Err(e) => Err(e),
    }
}

/// A new segment at `base` can be opened exactly when its index map fits
/// the address space.
pub proof fn lemma_fresh_opens(base: u64, conf: Config)
    ensures
        segment::can_open(base, conf, Seq::empty(), Seq::empty()) <==> conf.segment.max_index_bytes
            <= usize::MAX,
{
    let map = opened_map(Seq::<u8>::empty(), conf.segment.max_index_bytes as int);
    lemma_recovered_unique(map, 0, 0);
}

} // verus!
