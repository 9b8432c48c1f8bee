//! What opening a log over the files of an earlier log gives back.

use crate::log::config::Config;
use crate::log::error::LogError;
use crate::log::index::{
    entry_at, is_blank, is_recovered_count, lemma_blank_is_zero, lemma_entry_same,
    lemma_recovered_unique, opened_map,
};
use crate::log::log::{
    all_opened, ascending, file_data, file_index, is_export, lemma_ascending_total,
    lemma_owner_in, lemma_owner_is, lemma_owner_none, opened_bases, opened_ok, owner_in,
    store_bases, FileImage, Log,
};
use crate::log::names::{
    index_name_of, lemma_index_name_is_no_store_name, lemma_names_differ, lemma_store_name_parses,
    store_name_of,
};
use crate::log::record::RecordView;
use crate::log::segment::{opened_from, Segment};
use vstd::prelude::*;
use vstd::relations::sorted_by;
use vstd::seq_lib::lemma_sorted_unique;

verus! {

/// A consistent segment, opened again over its own files, is the same
/// segment: consistent, with the same range of offsets and the same record
/// or error at every offset.
pub proof fn lemma_segment_reopen(segment: Segment, conf: Config, reopened: Segment)
    requires
        segment.consistent(),
        opened_from(
            reopened,
            segment.base_offset,
            conf,
            segment.store.data@,
            segment.index.mmap@,
        ),
    ensures
        reopened.consistent(),
        reopened.base_offset == segment.base_offset,
        reopened.next_offset == segment.next_offset,
        forall|offset: u64| #[trigger] reopened.spec_read(offset) == segment.spec_read(offset),
{
    if segment.is_empty() {
        lemma_empty_segment_reopen(segment, conf, reopened);
    } else {
        lemma_filled_segment_reopen(segment, conf, reopened);
    }
}

/// A segment that holds records, opened again over its own files, is the
/// same segment.
#[verifier::spinoff_prover]
pub proof fn lemma_filled_segment_reopen(segment: Segment, conf: Config, reopened: Segment)
    requires
        segment.consistent(),
        !segment.is_empty(),
        opened_from(
            reopened,
            segment.base_offset,
            conf,
            segment.store.data@,
            segment.index.mmap@,
        ),
    ensures
        reopened.consistent(),
        reopened.base_offset == segment.base_offset,
        reopened.next_offset == segment.next_offset,
        forall|offset: u64| #[trigger] reopened.spec_read(offset) == segment.spec_read(offset),
{
    let found = segment.index.mmap@;
    let map = opened_map(found, conf.segment.max_index_bytes as int);
    let limit = found.len() as int / 12;
    let n = segment.index.entries();
    let base = segment.base_offset;
    // The store holds the frame of the first record.
    assert(segment.owns(base));
    assert(segment.holds(base));
    assert(segment.store.data@.len() > 0);
    assert(map.subrange(0, found.len() as int) =~= found);
    assert forall|k: int| 0 <= k < n implies entry_at(map, k) == entry_at(found, k) by {
        assert(map.subrange(12 * k, 12 * k + 12) =~= found.subrange(12 * k, 12 * k + 12));
        lemma_entry_same(map, found, k);
    }
    assert forall|k: int| 0 <= k < n implies (#[trigger] entry_at(found, k)).0 == k by {
        let offset = (base + k) as u64;
        assert(segment.owns(offset));
        assert(segment.holds(offset));
    }
    assert forall|k: int| 1 <= k < n implies !is_blank(map, k) by {
        assert(entry_at(found, k).0 == k);
    }
    if n < limit {
        assert forall|i: int| 12 * n <= i < 12 * n + 12 implies map[i] == 0 by {
            assert(map[i] == found[i]);
        }
        lemma_blank_is_zero(map, n);
    }
    assert(is_recovered_count(map, limit, n));
    lemma_recovered_unique(map, limit, n);
    assert(entry_at(found, n - 1).0 == n - 1);
    assert(reopened.index.entries() == n);
    assert forall|offset: u64| #[trigger]
        reopened.spec_read(offset) == segment.spec_read(offset) by {
        if segment.owns(offset) {
            let k = offset - base;
            assert(entry_at(map, k) == entry_at(found, k));
        }
    }
    assert forall|offset: u64| #[trigger] reopened.owns(offset) implies reopened.holds(offset) by {
        assert(segment.owns(offset));
        assert(segment.holds(offset));
        let k = offset - base;
        assert(entry_at(map, k) == entry_at(found, k));
        assert(reopened.spec_read(offset) == segment.spec_read(offset));
    }
    assert forall|i: int| reopened.index.size <= i < map.len() implies map[i] == 0 by {
        if i < found.len() {
            assert(map[i] == found[i]);
        }
    }
    assert forall|a: int, b: int| 0 <= a < b < reopened.index.entries() implies
        #[trigger] reopened.frame_end(a) <= (#[trigger] reopened.index.entry(b)).1 by {
        assert(entry_at(map, a) == entry_at(found, a));
        assert(entry_at(map, b) == entry_at(found, b));
        assert(segment.frame_end(a) <= segment.index.entry(b).1);
    }
}

/// A segment without records, opened again over its own files, is the same
/// segment: its store holds no frame, so its index has no entry.
#[verifier::spinoff_prover]
pub proof fn lemma_empty_segment_reopen(segment: Segment, conf: Config, reopened: Segment)
    requires
        segment.consistent(),
        segment.is_empty(),
        opened_from(
            reopened,
            segment.base_offset,
            conf,
            segment.store.data@,
            segment.index.mmap@,
        ),
    ensures
        reopened.consistent(),
        reopened.is_empty(),
        reopened.base_offset == segment.base_offset,
        reopened.next_offset == segment.next_offset,
        forall|offset: u64| #[trigger] reopened.spec_read(offset) == segment.spec_read(offset),
{
    let found = segment.index.mmap@;
    let map = opened_map(found, conf.segment.max_index_bytes as int);
    assert forall|i: int| 0 <= i < map.len() implies map[i] == 0 by {
        if i < found.len() {
            assert(map[i] == found[i]);
        }
    }
}

/// `file_index` finds a file of the name, and none comes before it.
pub proof fn lemma_file_index(files: Seq<FileImage>, name: Seq<char>)
    ensures
        match file_index(files, name) {
            Some(i) => 0 <= i < files.len() && files[i].name@ == name && forall|j: int|
                0 <= j < i ==> (#[trigger] files[j]).name@ != name,
            None => forall|j: int| 0 <= j < files.len() ==> (#[trigger] files[j]).name@ != name,
        },
    decreases files.len(),
{
    if files.len() > 0 {
        let front = files.drop_last();
        lemma_file_index(front, name);
        match file_index(front, name) {
            Some(i) => {
                assert forall|j: int| 0 <= j < i implies (#[trigger] files[j]).name@ != name by {
                    assert(front[j] == files[j]);
                }
                assert(front[i] == files[i]);
            },
            None => {
                assert forall|j: int| 0 <= j < files.len() - 1 implies (
                #[trigger] files[j]).name@ != name by {
                    assert(front[j] == files[j]);
                }
            },
        }
    }
}

/// The base offsets of some segments, in their order.
pub open spec fn bases_of(segments: Seq<Segment>) -> Seq<u64> {
    Seq::new(segments.len(), |i: int| segments[i].base_offset)
}

/// The store files among the files of some segments name the segments'
/// base offsets, in their order.
pub proof fn lemma_export_bases(files: Seq<FileImage>, segments: Seq<Segment>)
    requires
        is_export(files, segments),
    ensures
        store_bases(files) == bases_of(segments),
    decreases segments.len(),
{
    if segments.len() == 0 {
        assert(store_bases(files) =~= bases_of(segments));
    } else {
        let n = segments.len() as int;
        let last = segments.last();
        let front_files = files.drop_last().drop_last();
        let front = segments.drop_last();
        assert forall|i: int| 0 <= i < front.len() implies {
            &&& (#[trigger] front_files[2 * i]).name@ == store_name_of(front[i].base_offset)
            &&& front_files[2 * i].data@ == front[i].store.data@
            &&& front_files[2 * i + 1].name@ == index_name_of(front[i].base_offset)
            &&& front_files[2 * i + 1].data@ == front[i].index.mmap@
        } by {
            assert(front_files[2 * i] == files[2 * i]);
            assert(front_files[2 * i + 1] == files[2 * i + 1]);
            assert(front[i] == segments[i]);
        }
        lemma_export_bases(front_files, front);
        assert(files.last() == files[2 * (n - 1) + 1]);
        assert(files.drop_last().last() == files[2 * (n - 1)]);
        lemma_index_name_is_no_store_name(last.base_offset);
        lemma_store_name_parses(last.base_offset);
        assert(store_bases(files) == store_bases(files.drop_last()));
        assert(store_bases(files.drop_last()) == store_bases(front_files).push(last.base_offset));
        assert(bases_of(front).push(last.base_offset) =~= bases_of(segments));
    }
}

impl Log {
    /// In a consistent log every segment but the active one ends where the
    /// segment after it starts.
    pub proof fn lemma_segments_are_contiguous(self, i: int)
        requires
            self.consistent(),
            0 <= i < self.all_segments().len() - 1,
        ensures
            self.all_segments()[i].next_offset == self.all_segments()[i + 1].base_offset,
    {
        let all = self.all_segments();
        let closed = self.segments@;
        assert(all[i] == closed[i]);
        if i + 1 < closed.len() {
            assert(all[i + 1] == closed[i + 1]);
        } else {
            assert(closed.last() == closed[i]);
        }
    }

    /// In a consistent log each segment but the last ends where the next
    /// one starts and holds records, so the base offsets increase.
    pub proof fn lemma_all_bases_increase(self, i: int, j: int)
        requires
            self.consistent(),
            0 <= i < j < self.all_segments().len(),
        ensures
            self.all_segments()[i].base_offset < self.all_segments()[i].next_offset,
            self.all_segments()[i].next_offset <= self.all_segments()[j].base_offset,
        decreases j - i,
    {
        let all = self.all_segments();
        let closed = self.segments@;
        assert(all[i] == closed[i]);
        assert(closed[i].consistent() && !closed[i].is_empty());
        if i + 1 < j {
            self.lemma_all_bases_increase(i + 1, j);
            assert(all[i + 1] == closed[i + 1]);
            assert(closed[i].next_offset == closed[i + 1].base_offset);
        } else {
            if j < closed.len() {
                assert(all[j] == closed[j]);
                assert(closed[i].next_offset == closed[i + 1].base_offset);
            } else {
                assert(closed.last() == closed[i]);
            }
        }
    }

    /// Whether each segment of `reopened` is what opening the segment of
    /// the same place of this log over that segment's own files gives.
    pub open spec fn reopened_as(self, conf: Config, reopened: Log) -> bool {
        &&& reopened.all_segments().len() == self.all_segments().len()
        &&& forall|i: int|
            0 <= i < self.all_segments().len() ==> opened_from(
                #[trigger] reopened.all_segments()[i],
                self.all_segments()[i].base_offset,
                conf,
                self.all_segments()[i].store.data@,
                self.all_segments()[i].index.mmap@,
            )
    }

    /// A log that is opened over the files of a consistent log opens each
    /// segment of that log over the segment's own files.
    #[verifier::spinoff_prover]
    pub proof fn lemma_reopened_segments(self, files: Seq<FileImage>, conf: Config, reopened: Log)
        requires
            self.consistent(),
            self.active_segment is Some,
            is_export(files, self.all_segments()),
            reopened.all_segments().len() == opened_bases(files, conf).len(),
            all_opened(reopened.all_segments(), files, conf, opened_bases(files, conf)),
        ensures
            self.reopened_as(conf, reopened),
    {
        let all = self.all_segments();
        let again = reopened.all_segments();
        let n = all.len() as int;
        let bases = bases_of(all);
        lemma_export_bases(files, all);
        // The base offsets come out of the sort as they went in.
        assert forall|i: int, j: int| 0 <= i < j < bases.len() implies #[trigger] ascending()(
            bases[i],
            bases[j],
        ) by {
            self.lemma_all_bases_increase(i, j);
        }
        assert(sorted_by(bases, ascending()));
        lemma_ascending_total();
        bases.lemma_sort_by_ensures(ascending());
        lemma_sorted_unique(bases.sort_by(ascending()), bases, ascending());
        assert(opened_bases(files, conf) == bases);
        assert forall|i: int| 0 <= i < n implies opened_from(
            #[trigger] again[i],
            all[i].base_offset,
            conf,
            all[i].store.data@,
            all[i].index.mmap@,
        ) by {
            assert(opened_ok(again[i], files, conf, bases[i]));
            self.lemma_own_files(files, i);
        }
    }

    /// Whether `reopened` has the closed segments of this log, each with
    /// the same range and the same record or error at every offset.
    pub open spec fn same_closed(self, reopened: Log) -> bool {
        &&& reopened.segments@.len() == self.segments@.len()
        &&& forall|i: int|
            0 <= i < self.segments@.len() ==> {
                &&& (#[trigger] reopened.segments@[i]).consistent()
                &&& reopened.segments@[i].base_offset == self.segments@[i].base_offset
                &&& reopened.segments@[i].next_offset == self.segments@[i].next_offset
                &&& forall|offset: u64| #[trigger]
                    reopened.segments@[i].spec_read(offset) == self.segments@[i].spec_read(
                        offset,
                    )
            }
    }

    /// The closed segments of a consistent log are the same after the log
    /// was reopened, and the active segment starts where it started.
    #[verifier::spinoff_prover]
    pub proof fn lemma_reopened_closed(self, conf: Config, reopened: Log)
        requires
            self.consistent(),
            self.active_segment is Some,
            reopened.active_segment is Some,
            self.reopened_as(conf, reopened),
        ensures
            self.same_closed(reopened),
            reopened.active_segment->Some_0.base_offset == self.active_segment->Some_0.base_offset,
    {
        let all = self.all_segments();
        let again = reopened.all_segments();
        let n = all.len() as int;
        assert(reopened.segments@.len() == n - 1);
        assert forall|i: int| 0 <= i < n - 1 implies {
            &&& (#[trigger] reopened.segments@[i]).consistent()
            &&& reopened.segments@[i].base_offset == self.segments@[i].base_offset
            &&& reopened.segments@[i].next_offset == self.segments@[i].next_offset
            &&& forall|offset: u64| #[trigger]
                reopened.segments@[i].spec_read(offset) == self.segments@[i].spec_read(offset)
        } by {
            assert(reopened.segments@[i] == again[i]);
            assert(self.segments@[i] == all[i]);
            assert(all[i].consistent() && !all[i].is_empty());
            lemma_segment_reopen(all[i], conf, again[i]);
        }
        assert(again[n - 1] == reopened.active_segment->Some_0);
        assert(all[n - 1] == self.active_segment->Some_0);
    }

    /// A log with the same closed segments reads in them what this log
    /// reads in them, and owns in them what this log owns in them.
    #[verifier::spinoff_prover]
    pub proof fn lemma_same_closed_reads(self, reopened: Log, offset: u64)
        requires
            self.same_closed(reopened),
        ensures
            owner_in(reopened.segments@, offset) == owner_in(self.segments@, offset),
            owner_in(self.segments@, offset) is Some ==> reopened.spec_read(offset)
                == self.spec_read(offset),
    {
        let mine = self.segments@;
        let theirs = reopened.segments@;
        lemma_owner_in(mine, offset);
        match owner_in(mine, offset) {
            Some(i) => {
                assert forall|j: int| 0 <= j < i implies !(#[trigger] theirs[j]).owns(offset) by {
                    assert(theirs[j].base_offset == mine[j].base_offset);
                }
                assert(theirs[i].base_offset == mine[i].base_offset);
                assert(theirs[i].spec_read(offset) == mine[i].spec_read(offset));
                lemma_owner_is(theirs, offset, i);
            },
            None => {
                assert forall|j: int| 0 <= j < theirs.len() implies !(#[trigger] theirs[j]).owns(
                    offset,
                ) by {
                    assert(theirs[j].base_offset == mine[j].base_offset);
                }
                lemma_owner_none(theirs, offset);
            },
        }
    }

    /// Closing and reopening a log keeps every record at its offset: a log
    /// opened over the files of a consistent log is consistent, goes on
    /// with the same next offset, and reads at every offset what that log
    /// read there.
    #[verifier::spinoff_prover]
    pub proof fn lemma_reopen_keeps_records(self, files: Seq<FileImage>, conf: Config, reopened: Log)
        requires
            self.consistent(),
            self.active_segment is Some,
            is_export(files, self.all_segments()),
            reopened.wf(),
            reopened.active_segment is Some,
            reopened.all_segments().len() == opened_bases(files, conf).len(),
            all_opened(reopened.all_segments(), files, conf, opened_bases(files, conf)),
        ensures
            forall|offset: u64| #[trigger] reopened.spec_read(offset) == self.spec_read(offset),
            reopened.consistent(),
            reopened.spec_next_offset() == self.spec_next_offset(),
            reopened.spec_first_offset() == self.spec_first_offset(),
            reopened.segments@.len() == self.segments@.len(),
    {
        self.lemma_reopened_segments(files, conf, reopened);
        self.lemma_reopened_closed(conf, reopened);
        let all = self.all_segments();
        let again = reopened.all_segments();
        let n = all.len() as int;
        let active = self.active_segment->Some_0;
        let active_again = reopened.active_segment->Some_0;
        assert(all[n - 1] == active);
        assert(again[n - 1] == active_again);
        assert(opened_from(again[n - 1], active.base_offset, conf, active.store.data@, active.index.mmap@));
        lemma_segment_reopen(active, conf, active_again);
        assert forall|offset: u64| #[trigger] reopened.spec_read(offset) == self.spec_read(
            offset,
        ) by {
            self.lemma_same_closed_reads(reopened, offset);
        }
        self.lemma_reopened_consistent(reopened);
        if self.segments@.len() > 0 {
            assert(reopened.segments@[0].base_offset == self.segments@[0].base_offset);
        }
    }

    /// A log with the same closed segments and a consistent active segment
    /// of the same range is consistent.
    #[verifier::spinoff_prover]
    pub proof fn lemma_reopened_consistent(self, reopened: Log)
        requires
            self.consistent(),
            self.active_segment is Some,
            reopened.wf(),
            reopened.active_segment is Some,
            self.same_closed(reopened),
            reopened.active_segment->Some_0.consistent(),
            reopened.active_segment->Some_0.base_offset == self.active_segment->Some_0.base_offset,
            reopened.active_segment->Some_0.next_offset == self.active_segment->Some_0.next_offset,
        ensures
            reopened.consistent(),
            reopened.spec_next_offset() == self.spec_next_offset(),
    {
        let mine = self.segments@;
        let theirs = reopened.segments@;
        let n = mine.len() as int;
        assert forall|i: int| 0 <= i < n implies (#[trigger] theirs[i]).consistent()
            && !theirs[i].is_empty() by {
            assert(theirs[i].base_offset == mine[i].base_offset);
            assert(mine[i].consistent() && !mine[i].is_empty());
        }
        assert forall|i: int| 0 <= i < n - 1 implies (#[trigger] theirs[i]).next_offset
            == theirs[i + 1].base_offset by {
            assert(theirs[i].next_offset == mine[i].next_offset);
            assert(theirs[i + 1].base_offset == mine[i + 1].base_offset);
            assert(mine[i].next_offset == mine[i + 1].base_offset);
        }
        if n > 0 {
            assert(theirs.last() == theirs[n - 1]);
            assert(mine.last() == mine[n - 1]);
            assert(theirs[n - 1].next_offset == mine[n - 1].next_offset);
        }
    }

    /// Among the files of a consistent log, the files of the names of a
    /// segment are the files of that segment.
    #[verifier::spinoff_prover]
    pub proof fn lemma_own_files(self, files: Seq<FileImage>, i: int)
        requires
            self.consistent(),
            is_export(files, self.all_segments()),
            0 <= i < self.all_segments().len(),
        ensures
            file_data(files, store_name_of(self.all_segments()[i].base_offset))
                == self.all_segments()[i].store.data@,
            file_data(files, index_name_of(self.all_segments()[i].base_offset))
                == self.all_segments()[i].index.mmap@,
    {
        let all = self.all_segments();
        let base = all[i].base_offset;
        let store_name = store_name_of(base);
        let index_name = index_name_of(base);
        lemma_file_index(files, store_name);
        lemma_file_index(files, index_name);
        assert(files[2 * i].name@ == store_name);
        assert(files[2 * i + 1].name@ == index_name);
        assert forall|j: int| 0 <= j < files.len() && j != 2 * i implies (
        #[trigger] files[j]).name@ != store_name by {
            let k = j / 2;
            lemma_names_differ(all[k].base_offset, base);
            lemma_names_differ(base, all[k].base_offset);
            if k < i {
                self.lemma_all_bases_increase(k, i);
            }
            if i < k {
                self.lemma_all_bases_increase(i, k);
            }
            if j == 2 * k {
                assert(files[2 * k].name@ == store_name_of(all[k].base_offset));
            } else {
                assert(j == 2 * k + 1);
                assert(files[2 * k].name@ == store_name_of(all[k].base_offset));
                assert(files[2 * k + 1].name@ == index_name_of(all[k].base_offset));
            }
        }
        assert forall|j: int| 0 <= j < files.len() && j != 2 * i + 1 implies (
        #[trigger] files[j]).name@ != index_name by {
            let k = j / 2;
            lemma_names_differ(all[k].base_offset, base);
            lemma_names_differ(base, all[k].base_offset);
            if k < i {
                self.lemma_all_bases_increase(k, i);
            }
            if i < k {
                self.lemma_all_bases_increase(i, k);
            }
            if j == 2 * k {
                assert(files[2 * k].name@ == store_name_of(all[k].base_offset));
            } else {
                assert(j == 2 * k + 1);
                assert(files[2 * k].name@ == store_name_of(all[k].base_offset));
                assert(files[2 * k + 1].name@ == index_name_of(all[k].base_offset));
            }
        }
    }

    /// A consistent log does not end before it starts.
    pub proof fn lemma_first_before_next(self)
        requires
            self.consistent(),
            self.active_segment is Some,
        ensures
            self.spec_first_offset() <= self.spec_next_offset(),
    {
        let n = self.all_segments().len() as int;
        assert(self.all_segments()[n - 1] == self.active_segment->Some_0);
        if n > 1 {
            self.lemma_all_bases_increase(0, n - 1);
            assert(self.all_segments()[0] == self.segments@[0]);
        }
    }

    /// A consistent log reads a record at every offset from its first
    /// offset up to its next offset, and the record has that offset.
    pub proof fn lemma_in_range(self, offset: u64)
        requires
            self.consistent(),
            self.active_segment is Some,
            self.spec_first_offset() <= offset < self.spec_next_offset(),
        ensures
            self.spec_read(offset) is Ok,
            self.spec_read(offset)->Ok_0.offset == offset,
    {
        self.lemma_in_range_from(offset, 0);
    }

    /// A consistent log reads a record at every offset from the base of
    /// one of its segments up to its next offset.
    #[verifier::spinoff_prover]
    pub proof fn lemma_in_range_from(self, offset: u64, i: int)
        requires
            self.consistent(),
            self.active_segment is Some,
            0 <= i < self.all_segments().len(),
            self.all_segments()[i].base_offset <= offset < self.spec_next_offset(),
        ensures
            self.spec_read(offset) is Ok,
            self.spec_read(offset)->Ok_0.offset == offset,
        decreases self.all_segments().len() - i,
    {
        let all = self.all_segments();
        let n = all.len() as int;
        let closed = self.segments@;
        if offset < all[i].next_offset {
            assert(all[i].owns(offset));
            if i < n - 1 {
                assert(all[i] == closed[i]);
                assert forall|j: int| 0 <= j < i implies !(#[trigger] closed[j]).owns(offset) by {
                    assert(closed[j] == all[j]);
                    self.lemma_all_bases_increase(j, i);
                }
                lemma_owner_is(closed, offset, i);
                assert(closed[i].consistent());
                assert(closed[i].holds(offset));
            } else {
                let active = self.active_segment->Some_0;
                assert(all[i] == active);
                self.lemma_closed_end_before_active(offset);
                assert(active.holds(offset));
            }
        } else {
            assert(i < n - 1);
            assert(all[i] == closed[i]);
            if i + 1 < n - 1 {
                assert(all[i + 1] == closed[i + 1]);
                assert(closed[i].next_offset == closed[i + 1].base_offset);
            } else {
                assert(closed.last() == closed[i]);
            }
            self.lemma_in_range_from(offset, i + 1);
        }
    }

    /// An offset below the first segment or at or above the next offset
    /// belongs to no segment of a consistent log: reading it finds nothing.
    pub proof fn lemma_out_of_range(self, offset: u64)
        requires
            self.consistent(),
            self.active_segment is Some,
            offset < self.spec_first_offset() || offset >= self.spec_next_offset(),
        ensures
            self.spec_read(offset) == Err::<RecordView, LogError>(LogError::NotFound),
    {
        let all = self.all_segments();
        let n = all.len() as int;
        let active = self.active_segment->Some_0;
        assert(all[n - 1] == active);
        assert forall|j: int| 0 <= j < self.segments@.len() implies !(
        #[trigger] self.segments@[j]).owns(offset) by {
            assert(self.segments@[j] == all[j]);
            self.lemma_all_bases_increase(j, n - 1);
            if j > 0 {
                self.lemma_all_bases_increase(0, j);
            }
        }
        lemma_owner_none(self.segments@, offset);
        if n > 1 {
            self.lemma_all_bases_increase(0, n - 1);
        }
    }
}

} // verus!
