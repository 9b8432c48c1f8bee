//! Replication: the leader's bookkeeping of what each peer holds, the
//! advance of the commit index, and what a follower does with the entries
//! that a leader sends. The entries' payloads live in the log; their terms
//! are kept beside it, one for each index.

use crate::cluster::config::ClusterConfig;
pub use crate::cluster::election::LogEntry;
pub use crate::cluster::protocol::ReplicationResponse;
use crate::cluster::protocol::{
    accepts, acked, agreeing, agreeing_from, agrees_at, committable, follower_step,
    lemma_agreeing, merged, peer_after_reply, AppendView, EntryView, Replica,
};
use crate::cluster::state::{term_vote_step, ClusterState, ClusterStateManager, NodeInfo};
use crate::cluster::table::{among, key_at, lemma_among_next, StringMap};
use crate::log::error::LogError;
use crate::log::log::Log;
use crate::log::record::{encode_record, Record, RecordView};
use crate::log::wire::{lemma_u64_be_roundtrip, read_u64_be, u64_be_bytes, u64_from_be, u64_to_be_vec};
use vstd::prelude::*;

verus! {

/// A leader's request to append entries to a follower's log.
#[derive(Debug, Clone)]
pub struct ReplicationRequest {
    pub term: u64,
    pub leader_id: String,
    pub prev_log_index: u64,
    pub prev_log_term: u64,
    pub entries: Vec<LogEntry>,
    pub leader_commit: u64,
}

/// Why a write was refused.
#[derive(Debug, Clone, Copy, PartialEq, Eq, Structural)]
pub enum ReplicationError {
    /// The node is not the leader.
    NotLeader,
    /// The log did not take the record.
    Storage(LogError),
}

/// The length of the serialized record that the log makes of `command`.
pub open spec fn stored_len(log: Log, command: Seq<u8>) -> int {
    encode_record(RecordView { value: command, offset: log.spec_next_offset() }).len() as int
}

/// The names of the nodes that are alive, the node `own` left out, in the
/// order of the table.
pub open spec fn alive_peers(keys: Seq<String>, nodes: Seq<NodeInfo>, own: Seq<char>) -> Seq<
    Seq<char>,
>
    decreases nodes.len(),
{
    if nodes.len() == 0 || keys.len() != nodes.len() {
        Seq::empty()
    } else {
        let before = alive_peers(keys.drop_last(), nodes.drop_last(), own);
        if nodes.last().is_alive && keys.last()@ != own {
            before.push(keys.last()@)
        } else {
            before
        }
    }
}

/// The entries of a request as mathematical values.
pub open spec fn entry_views(entries: Seq<LogEntry>) -> Seq<EntryView> {
    Seq::new(entries.len(), |i: int| EntryView { term: entries[i].term, command: entries[i].command@ })
}

/// The entries of a node's log: the terms kept by the replication, the
/// payloads read from the log.
pub open spec fn log_entries(terms: Seq<u64>, log: Log) -> Seq<EntryView> {
    Seq::new(
        terms.len(),
        |i: int|
            EntryView {
                term: terms[i],
                command: log.spec_read((log.spec_first_offset() + i) as u64)->Ok_0.value,
            },
    )
}

/// The terms of the entries as the bytes of a file: eight bytes for each
/// term, most significant byte first, in the order of the entries.
pub open spec fn term_bytes(terms: Seq<u64>) -> Seq<u8>
    decreases terms.len(),
{
    if terms.len() == 0 {
        Seq::empty()
    } else {
        term_bytes(terms.drop_last()) + u64_be_bytes(terms.last())
    }
}

/// The terms that the bytes of a file hold: one for every eight bytes.
pub open spec fn terms_of(bytes: Seq<u8>) -> Seq<u64> {
    Seq::new(bytes.len() / 8, |i: int| u64_from_be(bytes.subrange(8 * i, 8 * i + 8)))
}

/// The bytes of some terms hold those terms.
pub proof fn lemma_terms_roundtrip(terms: Seq<u64>)
    ensures
        term_bytes(terms).len() == 8 * terms.len(),
        terms_of(term_bytes(terms)) == terms,
    decreases terms.len(),
{
    if terms.len() > 0 {
        let front = terms.drop_last();
        lemma_terms_roundtrip(front);
        let bytes = term_bytes(terms);
        let n = front.len() as int;
        lemma_u64_be_roundtrip(terms.last(), Seq::empty());
        assert(bytes.subrange(8 * n, 8 * n + 8) =~= u64_be_bytes(terms.last()) + Seq::<u8>::empty());
        assert forall|i: int| 0 <= i < n implies terms_of(bytes)[i] == terms[i] by {
            assert(bytes.subrange(8 * i, 8 * i + 8) =~= term_bytes(front).subrange(
                8 * i,
                8 * i + 8,
            ));
            assert(terms_of(term_bytes(front))[i] == front[i]);
        }
        assert(terms_of(bytes) =~= terms);
    } else {
        assert(terms_of(term_bytes(terms)) =~= terms);
    }
}

/// Reads the terms that the bytes of a file hold.
pub fn read_terms(bytes: &Vec<u8>) -> (terms: Vec<u64>)
    ensures
        terms@ == terms_of(bytes@),
{
    let total: usize = bytes.len();
    let count: usize = total / 8;
    let mut terms: Vec<u64> = Vec::new();
    let mut i: usize = 0;
    while i < count
        invariant
            total == bytes@.len(),
            i <= count == total / 8,
            terms@ == terms_of(bytes@).subrange(0, i as int),
        decreases count - i,
    {
        terms.push(read_u64_be(bytes, i * 8));
        assert(terms@ =~= terms_of(bytes@).subrange(0, i + 1));
        i = i + 1;
    }
    assert(terms@ =~= terms_of(bytes@));
    terms
}

impl ReplicationRequest {
    /// The request as a mathematical value.
    pub open spec fn view(&self) -> AppendView {
        AppendView {
            term: self.term,
            prev_log_index: self.prev_log_index,
            prev_log_term: self.prev_log_term,
            entries: entry_views(self.entries@),
            leader_commit: self.leader_commit,
        }
    }
}

/// The replication of one node.
#[derive(Debug, Clone)]
pub struct ReplicationManager {
    pub config: ClusterConfig,
    /// For each peer, the index of the next entry to send to it.
    pub next_index: StringMap<u64>,
    /// For each peer, the highest index that it is known to hold.
    pub match_index: StringMap<u64>,
    /// The term of each entry of the log, by index.
    pub terms: Vec<u64>,
    /// How many peers have accepted the entries sent to them in the round
    /// of replication that is under way.
    pub accepted: usize,
}

impl ReplicationManager {
    /// The replication of the node of `config`, for a log without entries.
    pub fn new(config: ClusterConfig) -> (manager: Self)
        ensures
            manager.config == config,
            manager.next_index.wf(),
            manager.match_index.wf(),
            manager.next_index@ == Map::<Seq<char>, u64>::empty(),
            manager.match_index@ == Map::<Seq<char>, u64>::empty(),
            manager.terms@.len() == 0,
            manager.accepted == 0,
    {
        Self {
            config,
            next_index: StringMap::new(),
            match_index: StringMap::new(),
            terms: Vec::new(),
            accepted: 0,
        }
    }

    /// The terms of the entries as the bytes of a file, to be kept beside
    /// the files of the log.
    pub fn term_image(&self) -> (bytes: Vec<u8>)
        ensures
            bytes@ == term_bytes(self.terms@),
    {
        let mut bytes: Vec<u8> = Vec::new();
        let count: usize = self.terms.len();
        let mut i: usize = 0;
        while i < count
            invariant
                i <= count == self.terms@.len(),
                bytes@ == term_bytes(self.terms@.subrange(0, i as int)),
            decreases count - i,
        {
            assert(self.terms@.subrange(0, i + 1).drop_last() =~= self.terms@.subrange(0, i as int));
            let term = u64_to_be_vec(self.terms[i]);
            bytes.extend_from_slice(term.as_slice());
            i = i + 1;
        }
        assert(self.terms@.subrange(0, count as int) =~= self.terms@);
        bytes
    }

    /// Whether a node can go on over `log` with the terms that
    /// `term_image` holds: the log is consistent and the image holds one
    /// term for each of its records.
    #[verifier::opaque]
    pub open spec fn can_reopen(term_image: Seq<u8>, log: &Log) -> bool {
        &&& log.consistent()
        &&& log.active_segment is Some
        &&& term_image.len() % 8 == 0
        &&& term_image.len() / 8 == log.spec_next_offset() - log.spec_first_offset()
    }

    /// Whether a node can go on over `log` with the terms that
    /// `term_image` holds.
    pub fn check_reopen(term_image: &Vec<u8>, log: &Log) -> (ok: bool)
        ensures
            ok == Self::can_reopen(term_image@, log),
            ok ==> term_image@.len() / 8 == log.spec_next_offset() - log.spec_first_offset(),
    {
        proof {
            reveal(ReplicationManager::can_reopen);
        }
        if !log.check() || log.active_segment.is_none() {
            return false;
        }
        proof {
            log.lemma_first_before_next();
        }
        let total: usize = term_image.len();
        let held: u64 = log.next_offset() - log.first_offset();
        total % 8 == 0 && (total / 8) as u64 == held
    }

    /// A manager without notes of its peers whose terms are those of an
    /// image with which a node can go on is tied to the log and to a state
    /// that counts the entries as applied.
    pub proof fn lemma_reopened_coupled(
        &self,
        term_image: Seq<u8>,
        state: &ClusterStateManager,
        log: &Log,
    )
        requires
            Self::can_reopen(term_image, log),
            state.wf(),
            self.next_index.wf(),
            self.match_index.wf(),
            self.terms@.len() == term_image.len() / 8,
            state.state.last_applied == self.terms@.len(),
        ensures
            self.coupled(state, log),
    {
        reveal(ReplicationManager::can_reopen);
        reveal(ReplicationManager::coupled);
    }

    /// The replication of a node that goes on over a log that it filled
    /// before, with the terms that it kept beside it. The state counts the
    /// entries of the log as applied. None where the log is not consistent
    /// or the terms are not those of its records.
    pub fn reopen(
        config: ClusterConfig,
        term_image: &Vec<u8>,
        state: &mut ClusterStateManager,
        log: &Log,
    ) -> (r: Option<Self>)
        requires
            old(state).wf(),
        ensures
            r is Some <==> Self::can_reopen(term_image@, log),
            match r {
                Some(manager) => {
                    &&& manager.coupled(final(state), log)
                    &&& manager.config == config
                    &&& manager.terms@ == terms_of(term_image@)
                    &&& manager.next_index@ == Map::<Seq<char>, u64>::empty()
                    &&& manager.match_index@ == Map::<Seq<char>, u64>::empty()
                    &&& manager.accepted == 0
                    &&& *final(state) == (ClusterStateManager {
                        state: ClusterState {
                            last_applied: manager.terms@.len() as u64,
                            ..old(state).state
                        },
                        ..*old(state)
                    })
                },
                None => *final(state) == *old(state),
            },
    {
        if !Self::check_reopen(term_image, log) {
            return None;
        }
        let terms = read_terms(term_image);
        state.state.last_applied = (term_image.len() / 8) as u64;
        let manager = Self {
            config,
            next_index: StringMap::new(),
            match_index: StringMap::new(),
            terms,
            accepted: 0,
        };
        proof {
            manager.lemma_reopened_coupled(term_image@, state, log);
        }
        Some(manager)
    }

    /// What ties the replication to the state and the log of its node: the
    /// log is consistent and holds one record for each entry, and the state
    /// has applied them all.
    #[verifier::opaque]
    pub open spec fn coupled(&self, state: &ClusterStateManager, log: &Log) -> bool {
        &&& state.wf()
        &&& self.next_index.wf()
        &&& self.match_index.wf()
        &&& log.consistent()
        &&& log.active_segment is Some
        &&& log.spec_next_offset() - log.spec_first_offset() == self.terms@.len()
        &&& state.state.last_applied == self.terms@.len()
    }

    /// A replication without entries is tied to a consistent log without
    /// records and a state that has applied nothing.
    pub proof fn lemma_coupled_at_start(&self, state: &ClusterStateManager, log: &Log)
        requires
            state.wf(),
            self.next_index.wf(),
            self.match_index.wf(),
            self.terms@.len() == 0,
            state.state.last_applied == 0,
            log.consistent(),
            log.active_segment is Some,
            log.spec_next_offset() == log.spec_first_offset(),
        ensures
            self.coupled(state, log),
    {
        reveal(ReplicationManager::coupled);
    }

    /// What is tied to each other holds a consistent log with one record
    /// for each entry, all of them applied.
    pub proof fn lemma_coupled(&self, state: &ClusterStateManager, log: &Log)
        requires
            self.coupled(state, log),
        ensures
            state.wf(),
            self.next_index.wf(),
            self.match_index.wf(),
            log.consistent(),
            log.active_segment is Some,
            log.spec_next_offset() - log.spec_first_offset() == self.terms@.len(),
            state.state.last_applied == self.terms@.len(),
    {
        reveal(ReplicationManager::coupled);
    }

    /// What is tied to each other stays so where nothing changes but the
    /// commit index of the state and the notes that the replication keeps
    /// of its peers and of the round under way.
    pub proof fn lemma_coupled_again(
        &self,
        before: &ReplicationManager,
        state_before: &ClusterStateManager,
        state: &ClusterStateManager,
        log: &Log,
    )
        requires
            before.coupled(state_before, log),
            self.terms == before.terms,
            self.next_index.wf(),
            self.match_index.wf(),
            state.state.nodes == state_before.state.nodes,
            state.state.last_applied == state_before.state.last_applied,
        ensures
            self.coupled(state, log),
    {
        reveal(ReplicationManager::coupled);
    }

    /// What replication reads of the node.
    pub open spec fn replica(&self, state: &ClusterStateManager, log: &Log) -> Replica {
        Replica {
            current_term: state.state.current_term,
            commit_index: state.state.commit_index,
            entries: log_entries(self.terms@, *log),
        }
    }

    /// The term of the last entry of the log, zero for a log without
    /// entries.
    pub open spec fn spec_last_log_term(&self) -> u64 {
        if self.terms@.len() == 0 {
            0
        } else {
            self.terms@.last()
        }
    }

    /// The term of the last entry of the log, zero for a log without
    /// entries.
    pub fn last_log_term(&self) -> (term: u64)
        ensures
            term == self.spec_last_log_term(),
    {
        let count: usize = self.terms.len();
        if count == 0 {
            0
        } else {
            self.terms[count - 1]
        }
    }

    /// A record appended to the log is one more entry of the node's log.
    pub proof fn lemma_entry_appended(
        terms: Seq<u64>,
        before: Log,
        after: Log,
        term: u64,
        record: RecordView,
    )
        requires
            before.consistent(),
            before.active_segment is Some,
            before.spec_next_offset() - before.spec_first_offset() == terms.len(),
            after.spec_first_offset() == before.spec_first_offset(),
            after.spec_read(before.spec_next_offset()) == Ok::<RecordView, LogError>(record),
            forall|other: u64| #[trigger]
                before.spec_read(other) is Ok ==> after.spec_read(other) == before.spec_read(
                    other,
                ),
        ensures
            log_entries(terms.push(term), after) == log_entries(terms, before).push(
                EntryView { term, command: record.value },
            ),
    {
        let first = before.spec_first_offset();
        assert forall|i: int| 0 <= i < terms.len() implies log_entries(terms.push(term), after)[i]
            == log_entries(terms, before)[i] by {
            before.lemma_in_range((first + i) as u64);
        }
        assert(log_entries(terms.push(term), after) =~= log_entries(terms, before).push(
            EntryView { term, command: record.value },
        ));
    }

    /// A log cut back to its first `keep` records holds the first `keep`
    /// entries of the node's log.
    pub proof fn lemma_entries_truncated(terms: Seq<u64>, before: Log, after: Log, keep: int)
        requires
            0 <= keep <= terms.len(),
            after.spec_first_offset() == before.spec_first_offset(),
            after.spec_next_offset() == before.spec_first_offset() + keep,
            forall|offset: u64|
                offset < after.spec_next_offset() ==> #[trigger] after.spec_read(offset)
                    == before.spec_read(offset),
        ensures
            log_entries(terms.subrange(0, keep), after) == log_entries(terms, before).subrange(
                0,
                keep,
            ),
    {
        assert(log_entries(terms.subrange(0, keep), after) =~= log_entries(
            terms,
            before,
        ).subrange(0, keep));
    }

    /// How many of the entries `entries` the log already holds after the
    /// index `prev`, each under the same term.
    pub fn agreeing_count(&self, log: &Log, prev: u64, entries: &Vec<LogEntry>) -> (keep: usize)
        requires
            prev <= self.terms@.len(),
        ensures
            keep == agreeing(log_entries(self.terms@, *log), prev as int, entry_views(entries@)),
            keep <= entries@.len(),
            prev + keep <= self.terms@.len(),
    {
        let ghost held = log_entries(self.terms@, *log);
        let ghost sent = entry_views(entries@);
        let count: usize = entries.len();
        let applied: usize = self.terms.len();
        let start: usize = prev as usize;
        let mut keep: usize = 0;
        proof {
            lemma_agreeing(held, prev as int, sent, 0);
        }
        while keep < count
            invariant_except_break
                keep <= count == entries@.len() == sent.len(),
                sent == entry_views(entries@),
                held == log_entries(self.terms@, *log),
                start == prev,
                start <= applied == self.terms@.len(),
                start + keep <= applied,
                agreeing(held, prev as int, sent) == agreeing_from(
                    held,
                    prev as int,
                    sent,
                    keep as int,
                ),
            ensures
                keep <= count == entries@.len(),
                start + keep <= applied,
                agreeing(held, prev as int, sent) == keep,
            decreases count - keep,
        {
            if keep >= applied - start {
                break ;
            }
            if self.terms[start + keep] != entries[keep].term {
                break ;
            }
            keep = keep + 1;
        }
        keep
    }

    /// Drops the entries after the index `kept` from the log, from the
    /// terms and from what the state counts as applied.
    #[verifier::spinoff_prover]
    pub fn cut_back(&mut self, state: &mut ClusterStateManager, log: &mut Log, kept: u64)
        requires
            old(self).coupled(old(state), old(log)),
            kept <= old(self).terms@.len(),
        ensures
            final(self).coupled(final(state), final(log)),
            final(self).config == old(self).config,
            final(self).next_index == old(self).next_index,
            final(self).match_index == old(self).match_index,
            final(self).accepted == old(self).accepted,
            final(self).terms@ == old(self).terms@.subrange(0, kept as int),
            final(log).spec_first_offset() == old(log).spec_first_offset(),
            *final(state) == (ClusterStateManager {
                state: ClusterState {
                    last_applied: kept,
                    ..old(state).state
                },
                ..*old(state)
            }),
            log_entries(final(self).terms@, *final(log)) == log_entries(
                old(self).terms@,
                *old(log),
            ).subrange(0, kept as int),
    {
        proof {
            reveal(ReplicationManager::coupled);
        }
        let first: u64 = log.first_offset();
        let applied: usize = self.terms.len();
        if kept as usize >= applied {
            assert(self.terms@.subrange(0, kept as int) =~= self.terms@);
            assert(log_entries(self.terms@, *log).subrange(0, kept as int) =~= log_entries(
                self.terms@,
                *log,
            ));
            return ;
        }
        log.truncate(first + kept);
        self.terms.truncate(kept as usize);
        state.state.last_applied = kept;
        proof {
            Self::lemma_entries_truncated(old(self).terms@, *old(log), *log, kept as int);
        }
    }

    /// Appends one entry to the log under the term `term` and counts it as
    /// applied. Returns the offset of its record. Where the log does not
    /// take the record, nothing changes.
    #[verifier::spinoff_prover]
    pub fn push_entry(
        &mut self,
        state: &mut ClusterStateManager,
        log: &mut Log,
        term: u64,
        command: Vec<u8>,
    ) -> (r: Result<u64, LogError>)
        requires
            old(self).coupled(old(state), old(log)),
        ensures
            final(self).coupled(final(state), final(log)),
            final(self).config == old(self).config,
            final(self).next_index == old(self).next_index,
            final(self).match_index == old(self).match_index,
            final(self).accepted == old(self).accepted,
            final(log).spec_first_offset() == old(log).spec_first_offset(),
            r is Ok <==> old(log).accepts(stored_len(*old(log), command@)),
            match r {
                Ok(offset) => {
                    &&& offset == old(log).spec_next_offset()
                    &&& old(state).state.last_applied < u64::MAX
                    &&& final(self).terms@ == old(self).terms@.push(term)
                    &&& log_entries(final(self).terms@, *final(log)) == log_entries(
                        old(self).terms@,
                        *old(log),
                    ).push(EntryView { term, command: command@ })
                    &&& *final(state) == (ClusterStateManager {
                        state: ClusterState {
                            last_applied: (old(state).state.last_applied + 1) as u64,
                            ..old(state).state
                        },
                        ..*old(state)
                    })
                },
                Err(e) => {
                    &&& e == old(log).refusal(stored_len(*old(log), command@))
                    &&& *final(self) == *old(self)
                    &&& *final(state) == *old(state)
                    &&& *final(log) == *old(log)
                },
            },
    {
        proof {
            reveal(ReplicationManager::coupled);
        }
        let mut record = Record::default();
        record.value = command;
        match log.append(&mut record) {
            Ok(offset) => {
                self.terms.push(term);
                state.state.last_applied = state.state.last_applied + 1;
                proof {
                    Self::lemma_entry_appended(old(self).terms@, *old(log), *log, term, record@);
                }
                Ok(offset)
            },
            Err(e) => Err(e),
        }
    }

    /// Whether the log, as it is, does not take the record of the entry
    /// number `j` of `entries`.
    pub open spec fn refused_at(&self, log: &Log, entries: Seq<LogEntry>, j: int) -> bool {
        &&& 0 <= j < entries.len()
        &&& !log.accepts(stored_len(*log, entries[j].command@))
    }

    /// Appends the entries of `entries` from the entry number `from` on to
    /// the log, each with its term, and counts them as applied. Stops at
    /// the first entry that the log does not take. Returns whether the log
    /// took them all.
    #[verifier::spinoff_prover]
    pub fn append_entries(
        &mut self,
        state: &mut ClusterStateManager,
        log: &mut Log,
        entries: &Vec<LogEntry>,
        from: usize,
    ) -> (done: bool)
        requires
            old(self).coupled(old(state), old(log)),
            from <= entries@.len(),
        ensures
            final(self).coupled(final(state), final(log)),
            final(self).config == old(self).config,
            final(self).next_index == old(self).next_index,
            final(self).match_index == old(self).match_index,
            final(self).accepted == old(self).accepted,
            final(log).spec_first_offset() == old(log).spec_first_offset(),
            final(state).node_id == old(state).node_id,
            final(state).state == (ClusterState {
                last_applied: final(state).state.last_applied,
                ..old(state).state
            }),
            ({
                let held = log_entries(old(self).terms@, *old(log));
                let now = log_entries(final(self).terms@, *final(log));
                let all = held + entry_views(entries@).subrange(from as int, entries@.len() as int);
                &&& done ==> now == all
                &&& !done ==> now.len() < all.len() && now == all.subrange(0, now.len() as int)
                &&& !done ==> final(self).refused_at(
                    final(log),
                    entries@,
                    from + (now.len() - held.len()),
                )
            }),
            from == entries@.len() ==> done,
    {
        let ghost held = log_entries(self.terms@, *log);
        let ghost sent = entry_views(entries@);
        let count: usize = entries.len();
        let mut j: usize = from;
        assert(held + sent.subrange(from as int, from as int) =~= held);
        while j < count
            invariant
                from <= j <= count == entries@.len() == sent.len(),
                sent == entry_views(entries@),
                self.coupled(state, log),
                self.config == old(self).config,
                self.next_index == old(self).next_index,
                self.match_index == old(self).match_index,
                self.accepted == old(self).accepted,
                state.node_id == old(state).node_id,
                state.state == (ClusterState {
                    last_applied: state.state.last_applied,
                    ..old(state).state
                }),
                log.spec_first_offset() == old(log).spec_first_offset(),
                held == log_entries(old(self).terms@, *old(log)),
                log_entries(self.terms@, *log) == held + sent.subrange(from as int, j as int),
            decreases count - j,
        {
            match self.push_entry(state, log, entries[j].term, entries[j].command.clone()) {
                Ok(_) => {
                    proof {
                        assert(sent.subrange(from as int, j + 1) =~= sent.subrange(
                            from as int,
                            j as int,
                        ).push(sent[j as int]));
                        assert(held + sent.subrange(from as int, j + 1) =~= (held + sent.subrange(
                            from as int,
                            j as int,
                        )).push(sent[j as int]));
                    }
                },
                Err(_) => {
                    proof {
                        let all = held + sent.subrange(from as int, count as int);
                        let now = log_entries(self.terms@, *log);
                        assert(now == held + sent.subrange(from as int, j as int));
                        assert(now.len() == held.len() + (j - from));
                        assert(all.len() == held.len() + (count - from));
                        assert(now =~= all.subrange(0, now.len() as int));
                        assert(self.refused_at(log, entries@, j as int));
                    }
                    return false;
                },
            }
            j = j + 1;
        }
        true
    }

    /// Takes a leader's request to append entries. A request of an older
    /// term is refused with the node's term. Any other makes its term the
    /// node's own; it is refused if the log does not hold, at the index
    /// before the entries, an entry of the term that the request names.
    /// Else entries that the log already holds are passed over, entries in
    /// conflict with the request are dropped with all that follow them, the
    /// new entries are appended, and the commit index follows the leader's
    /// as far as the log reaches. Where the log cannot take an entry, the
    /// entries before it stay and the request is refused.
    #[verifier::spinoff_prover]
    pub fn handle_replication_request(
        &mut self,
        state: &mut ClusterStateManager,
        log: &mut Log,
        request: ReplicationRequest,
    ) -> (response: ReplicationResponse)
        requires
            old(self).coupled(old(state), old(log)),
        ensures
            final(self).coupled(final(state), final(log)),
            final(self).config == old(self).config,
            final(self).next_index == old(self).next_index,
            final(self).match_index == old(self).match_index,
            final(self).accepted == old(self).accepted,
            final(state).node_id == old(state).node_id,
            final(log).spec_first_offset() == old(log).spec_first_offset(),
            term_vote_step(old(state).state, final(state).state, None),
            request.term < old(state).state.current_term ==> *final(self) == *old(self)
                && *final(state) == *old(state) && *final(log) == *old(log),
            request.term >= old(state).state.current_term ==> old(state).nodes_observed(
                *final(state),
                request.term,
            ) && final(state).state == (ClusterState {
                nodes: final(state).state.nodes,
                commit_index: final(state).state.commit_index,
                last_applied: final(state).state.last_applied,
                ..old(state).state.observed(request.term)
            }),
            ({
                let before = old(self).replica(old(state), old(log));
                let after = final(self).replica(final(state), final(log));
                let (next, answer) = follower_step(before, request@);
                &&& after.current_term == next.current_term
                &&& response.term == answer.term
                &&& response.success ==> after == next && response == answer
                &&& !response.success ==> {
                    &&& response.match_index == 0
                    &&& after.commit_index == before.commit_index
                    &&& !answer.success ==> after.entries == before.entries
                    &&& answer.success ==> after.entries.len() < next.entries.len()
                        && after.entries == next.entries.subrange(0, after.entries.len() as int)
                    &&& answer.success ==> final(self).refused_at(
                        final(log),
                        request.entries@,
                        after.entries.len() - request.prev_log_index,
                    )
                }
                &&& answer.success && next.entries == before.entries ==> response.success
            }),
            response.success ==> final(state).state.last_applied >= response.match_index,
    {
        proof {
            reveal(ReplicationManager::coupled);
        }
        let ghost before = old(self).replica(old(state), old(log));
        let ghost sent = entry_views(request.entries@);
        if request.term < state.state.current_term {
            return ReplicationResponse {
                term: state.state.current_term,
                success: false,
                match_index: 0,
            };
        }
        state.observe_term(request.term);
        let term: u64 = request.term;
        let prev: u64 = request.prev_log_index;
        let applied: usize = self.terms.len();
        let count: usize = request.entries.len();
        let holds_prev: bool = prev == 0 || (prev <= applied as u64 && self.terms[(prev
            - 1) as usize] == request.prev_log_term);
        if !holds_prev || count as u64 > u64::MAX - prev {
            return ReplicationResponse { term, success: false, match_index: 0 };
        }
        assert(accepts(before, request@));
        let keep: usize = self.agreeing_count(log, prev, &request.entries);
        let ghost target = merged(before.entries, prev as int, sent);
        if keep < count {
            self.cut_back(state, log, prev + keep as u64);
            let done = self.append_entries(state, log, &request.entries, keep);
            if !done {
                proof {
                    // The entry at which the log and the request part ways
                    // is not in the log, so the merged log is another one.
                    lemma_agreeing(before.entries, prev as int, sent, 0);
                    assert(!agrees_at(before.entries, prev as int, sent, keep as int));
                    if target == before.entries {
                        assert(target[prev + keep] == sent[keep as int]);
                    }
                }
                return ReplicationResponse { term, success: false, match_index: 0 };
            }
        }
        state.state.commit_index = if request.leader_commit <= state.state.last_applied {
            request.leader_commit
        } else {
            state.state.last_applied
        };
        proof {
            crate::cluster::protocol::lemma_merged(before.entries, prev as int, sent);
        }
        ReplicationResponse { term, success: true, match_index: prev + count as u64 }
    }

    /// Takes a command from a client: the leader gives it the index after
    /// the last one applied, appends it to its log under its term and
    /// counts it as applied. Returns the offset of the record in the log.
    /// A node that is not the leader refuses. The entry is stored then,
    /// not yet committed: it is committed once `update_commit_index` has
    /// moved the commit index to it.
    pub fn append_entry(
        &mut self,
        state: &mut ClusterStateManager,
        log: &mut Log,
        command: Vec<u8>,
    ) -> (r: Result<u64, ReplicationError>)
        requires
            old(self).coupled(old(state), old(log)),
        ensures
            final(self).coupled(final(state), final(log)),
            final(self).config == old(self).config,
            final(self).next_index == old(self).next_index,
            final(self).match_index == old(self).match_index,
            final(self).accepted == old(self).accepted,
            final(log).spec_first_offset() == old(log).spec_first_offset(),
            r is Ok <==> old(state).spec_is_leader() && old(log).accepts(
                stored_len(*old(log), command@),
            ),
            match r {
                Ok(offset) => {
                    &&& old(state).spec_is_leader()
                    &&& offset == old(log).spec_next_offset()
                    &&& offset == old(log).spec_first_offset() + old(state).state.last_applied
                    &&& old(state).state.last_applied < u64::MAX
                    &&& final(self).terms@ == old(self).terms@.push(old(state).state.current_term)
                    &&& final(self).replica(final(state), final(log)).entries == old(self).replica(
                        old(state),
                        old(log),
                    ).entries.push(
                        EntryView { term: old(state).state.current_term, command: command@ },
                    )
                    &&& *final(state) == (ClusterStateManager {
                        state: ClusterState {
                            last_applied: (old(state).state.last_applied + 1) as u64,
                            ..old(state).state
                        },
                        ..*old(state)
                    })
                },
                Err(ReplicationError::NotLeader) => {
                    &&& !old(state).spec_is_leader()
                    &&& *final(self) == *old(self)
                    &&& *final(state) == *old(state)
                    &&& *final(log) == *old(log)
                },
                Err(ReplicationError::Storage(e)) => {
                    &&& old(state).spec_is_leader()
                    &&& e == old(log).refusal(stored_len(*old(log), command@))
                    &&& *final(self) == *old(self)
                    &&& *final(state) == *old(state)
                    &&& *final(log) == *old(log)
                },
            },
    {
        proof {
            reveal(ReplicationManager::coupled);
        }
        if !state.is_leader() {
            return Err(ReplicationError::NotLeader);
        }
        let term: u64 = state.state.current_term;
        match self.push_entry(state, log, term, command) {
            Ok(offset) => Ok(offset),
            Err(e) => Err(ReplicationError::Storage(e)),
        }
    }

    /// The index of the next entry to send to the peer `node_id`: what the
    /// leader has noted for it, and the index after the last entry for a
    /// peer of which it has noted nothing.
    pub open spec fn spec_next_for(&self, node_id: Seq<char>) -> u64 {
        if self.next_index@.contains_key(node_id) {
            self.next_index@[node_id]
        } else if self.terms@.len() < u64::MAX {
            (self.terms@.len() + 1) as u64
        } else {
            u64::MAX
        }
    }

    /// The highest index that the peer `node_id` is known to hold, zero
    /// for a peer of which nothing is noted.
    pub open spec fn spec_match_for(&self, node_id: Seq<char>) -> u64 {
        if self.match_index@.contains_key(node_id) {
            self.match_index@[node_id]
        } else {
            0
        }
    }

    /// The index before the entries that go to a peer whose next index is
    /// `next`: one less, within the log.
    pub open spec fn prev_for(&self, next: u64) -> int {
        if next == 0 {
            0
        } else if next - 1 <= self.terms@.len() {
            next - 1
        } else {
            self.terms@.len() as int
        }
    }

    /// Notes of every node that the state knows, this node left out, what a
    /// node takes of its peers when it becomes the leader: the index after
    /// its own last entry as the next index, zero as the match index. What
    /// was noted before is forgotten.
    #[verifier::spinoff_prover]
    pub fn reset_peers(&mut self, state: &ClusterStateManager)
        requires
            state.wf(),
        ensures
            *final(self) == (ReplicationManager {
                next_index: final(self).next_index,
                match_index: final(self).match_index,
                accepted: 0,
                ..*old(self)
            }),
            final(self).next_index.wf(),
            final(self).match_index.wf(),
            forall|name: Seq<char>|
                #![trigger final(self).next_index@.contains_key(name)]
                #![trigger final(self).match_index@.contains_key(name)]
                {
                    let known = state.state.nodes@.contains_key(name) && name
                        != old(self).config.node_id@;
                    &&& final(self).next_index@.contains_key(name) == known
                    &&& final(self).match_index@.contains_key(name) == known
                    &&& known ==> final(self).next_index@[name] == old(self).spec_first_next()
                        && final(self).match_index@[name] == 0
                },
    {
        let applied: usize = self.terms.len();
        let next: u64 = if (applied as u64) < u64::MAX {
            applied as u64 + 1
        } else {
            u64::MAX
        };
        self.next_index = StringMap::new();
        self.match_index = StringMap::new();
        self.accepted = 0;
        let count: usize = state.state.nodes.len();
        let ghost keys = state.state.nodes.keys@;
        let mut i: usize = 0;
        while i < count
            invariant
                i <= count == keys.len(),
                keys == state.state.nodes.keys@,
                state.wf(),
                self.next_index.wf(),
                self.match_index.wf(),
                next == old(self).spec_first_next(),
                *self == (ReplicationManager {
                    next_index: self.next_index,
                    match_index: self.match_index,
                    accepted: 0,
                    ..*old(self)
                }),
                forall|name: Seq<char>|
                    #![trigger self.next_index@.contains_key(name)]
                    #![trigger self.match_index@.contains_key(name)]
                    {
                        let known = among(keys, name, i as int) && name != self.config.node_id@;
                        &&& self.next_index@.contains_key(name) == known
                        &&& self.match_index@.contains_key(name) == known
                        &&& known ==> self.next_index@[name] == next && self.match_index@[name]
                            == 0
                    },
            decreases count - i,
        {
            let ghost name_i = keys[i as int]@;
            if state.state.nodes.keys[i] != self.config.node_id {
                self.next_index.insert(state.state.nodes.keys[i].clone(), next);
                self.match_index.insert(state.state.nodes.keys[i].clone(), 0);
            }
            proof {
                assert forall|name: Seq<char>|
                    (#[trigger] among(keys, name, i + 1)) == (among(keys, name, i as int) || name
                        == name_i) by {
                    lemma_among_next(keys, name, i as int);
                }
            }
            i = i + 1;
        }
        proof {
            assert forall|name: Seq<char>|
                (#[trigger] among(keys, name, count as int)) == state.state.nodes@.contains_key(
                    name,
                ) by {
                if state.state.nodes.has(name) {
                    let j = state.state.nodes.place(name);
                    assert(0 <= j < count && key_at(keys, name, j));
                }
                if among(keys, name, count as int) {
                    let j = choose|j: int| 0 <= j < count && key_at(keys, name, j);
                    assert(key_at(state.state.nodes.keys@, name, j));
                }
            }
            assert(i == count);
            assert forall|name: Seq<char>| #![auto] self.next_index@.contains_key(name) == (
            state.state.nodes@.contains_key(name) && name != self.config.node_id@) by {
                assert(among(keys, name, count as int) == state.state.nodes@.contains_key(name));
            }
            assert forall|name: Seq<char>| #![auto] self.match_index@.contains_key(name) == (
            state.state.nodes@.contains_key(name) && name != self.config.node_id@) by {
                assert(among(keys, name, count as int) == state.state.nodes@.contains_key(name));
            }
        }
    }

    /// The next index that a new leader takes for its peers: the index
    /// after its own last entry.
    pub open spec fn spec_first_next(&self) -> u64 {
        if self.terms@.len() < u64::MAX {
            (self.terms@.len() + 1) as u64
        } else {
            u64::MAX
        }
    }

    /// The request that the leader sends to the peer `node_id`: the
    /// entries from the peer's next index on, with the index and the term
    /// of the entry before them and the leader's commit index.
    #[verifier::spinoff_prover]
    pub fn replication_request(&self, state: &ClusterStateManager, log: &Log, node_id: &str) -> (request:
        ReplicationRequest)
        requires
            self.coupled(state, log),
        ensures
            request.term == state.state.current_term,
            request.leader_id == self.config.node_id,
            request.leader_commit == state.state.commit_index,
            request.prev_log_index == self.prev_for(self.spec_next_for(node_id@)),
            request.prev_log_term == if request.prev_log_index == 0 {
                0
            } else {
                self.terms@[request.prev_log_index - 1]
            },
            entry_views(request.entries@) == log_entries(self.terms@, *log).subrange(
                request.prev_log_index as int,
                self.terms@.len() as int,
            ),
            forall|i: int|
                0 <= i < request.entries@.len() ==> (#[trigger] request.entries@[i]).index
                    == request.prev_log_index + 1 + i,
    {
        proof {
            reveal(ReplicationManager::coupled);
        }
        let applied: usize = self.terms.len();
        let next: u64 = match self.next_index.get(node_id) {
            Some(next) => *next,
            None => if (applied as u64) < u64::MAX {
                applied as u64 + 1
            } else {
                u64::MAX
            },
        };
        let prev: usize = if next == 0 {
            0
        } else if next - 1 <= applied as u64 {
            (next - 1) as usize
        } else {
            applied
        };
        let prev_log_term: u64 = if prev == 0 {
            0
        } else {
            self.terms[prev - 1]
        };
        let first: u64 = log.first_offset();
        let ghost held = log_entries(self.terms@, *log);
        let mut entries: Vec<LogEntry> = Vec::new();
        let mut i: usize = prev;
        while i < applied
            invariant
                prev <= i <= applied == self.terms@.len(),
                log.consistent(),
                log.active_segment is Some,
                first == log.spec_first_offset(),
                log.spec_next_offset() - first == applied,
                held == log_entries(self.terms@, *log),
                entries@.len() == i - prev,
                entry_views(entries@) == held.subrange(prev as int, i as int),
                forall|k: int| 0 <= k < entries@.len() ==> (#[trigger] entries@[k]).index == prev + 1 + k,
            decreases applied - i,
        {
            let offset: u64 = first + i as u64;
            proof {
                log.lemma_in_range(offset);
            }
            let command: Vec<u8> = match log.read(offset) {
                Ok(record) => record.value,
                Err(_) => Vec::new(),
            };
            let ghost before = entries@;
            entries.push(LogEntry { term: self.terms[i], index: i as u64 + 1, command });
            proof {
                assert(entry_views(entries@) =~= entry_views(before).push(held[i as int]));
                assert(held.subrange(prev as int, i + 1) =~= held.subrange(
                    prev as int,
                    i as int,
                ).push(held[i as int]));
            }
            i = i + 1;
        }
        let current = state.get_state();
        ReplicationRequest {
            term: current.current_term,
            leader_id: self.config.node_id.clone(),
            prev_log_index: prev as u64,
            prev_log_term,
            entries,
            leader_commit: current.commit_index,
        }
    }

    /// Takes the answer of the peer `node_id` to the `sent` entries that
    /// were sent to it after the index `prev_log_index`. An answer of a
    /// newer term than the leader's own makes the leader a follower and is
    /// passed over. Else an answer that accepts the entries moves the
    /// peer's match index to the last of them and its next index behind
    /// it; one that refuses them moves the next index back by one, not
    /// below one; a peer that accepts is counted for the round under way.
    /// Returns whether the peer accepted the entries.
    #[verifier::spinoff_prover]
    pub fn replicate_to_node(
        &mut self,
        state: &mut ClusterStateManager,
        node_id: &str,
        prev_log_index: u64,
        sent: usize,
        response: ReplicationResponse,
    ) -> (accepted: bool)
        requires
            old(state).wf(),
            old(self).next_index.wf(),
            old(self).match_index.wf(),
        ensures
            final(state).wf(),
            final(self).next_index.wf(),
            final(self).match_index.wf(),
            final(self).config == old(self).config,
            final(self).terms == old(self).terms,
            final(state).node_id == old(state).node_id,
            accepted == (response.success && response.term <= old(state).state.current_term),
            final(self).accepted == if accepted && old(self).accepted < usize::MAX {
                (old(self).accepted + 1) as usize
            } else {
                old(self).accepted
            },
            term_vote_step(old(state).state, final(state).state, None),
            response.term > old(state).state.current_term ==> {
                &&& final(self).next_index == old(self).next_index
                &&& final(self).match_index == old(self).match_index
                &&& old(state).nodes_observed(*final(state), response.term)
                &&& final(state).state == (ClusterState {
                    nodes: final(state).state.nodes,
                    ..old(state).state.observed(response.term)
                })
            },
            response.term <= old(state).state.current_term ==> {
                let (next, matched) = peer_after_reply(
                    old(self).spec_next_for(node_id@),
                    old(self).spec_match_for(node_id@),
                    prev_log_index,
                    sent as nat,
                    response.success,
                );
                &&& *final(state) == *old(state)
                &&& final(self).next_index@ == old(self).next_index@.insert(node_id@, next)
                &&& final(self).match_index@ == old(self).match_index@.insert(node_id@, matched)
            },
    {
        if state.observe_term(response.term) {
            return false;
        }
        let applied: usize = self.terms.len();
        let next: u64 = match self.next_index.get(node_id) {
            Some(next) => *next,
            None => if (applied as u64) < u64::MAX {
                applied as u64 + 1
            } else {
                u64::MAX
            },
        };
        let matched: u64 = match self.match_index.get(node_id) {
            Some(matched) => *matched,
            None => 0,
        };
        let (new_next, new_match): (u64, u64) = if response.success {
            if prev_log_index < u64::MAX && sent as u64 <= u64::MAX - 1 - prev_log_index {
                (prev_log_index + sent as u64 + 1, prev_log_index + sent as u64)
            } else {
                (u64::MAX, u64::MAX)
            }
        } else if next > 1 {
            (next - 1, matched)
        } else {
            (1, matched)
        };
        self.next_index.insert(node_id.to_owned(), new_next);
        self.match_index.insert(node_id.to_owned(), new_match);
        if response.success && self.accepted < usize::MAX {
            self.accepted = self.accepted + 1;
        }
        response.success
    }

    /// The number of the peers whose match index is at least `n`.
    pub fn count_acked(&self, n: u64) -> (count: usize)
        requires
            self.match_index.wf(),
        ensures
            count == acked(
                self.match_index.keys@,
                self.match_index.values@,
                self.config.node_id@,
                n,
            ),
            count <= self.match_index.keys@.len(),
    {
        let ghost keys = self.match_index.keys@;
        let ghost values = self.match_index.values@;
        let total: usize = self.match_index.len();
        let mut count: usize = 0;
        let mut i: usize = 0;
        while i < total
            invariant
                i <= total == keys.len() == values.len(),
                keys == self.match_index.keys@,
                values == self.match_index.values@,
                count <= i,
                count == acked(
                    keys.subrange(0, i as int),
                    values.subrange(0, i as int),
                    self.config.node_id@,
                    n,
                ),
            decreases total - i,
        {
            assert(keys.subrange(0, i + 1).drop_last() =~= keys.subrange(0, i as int));
            assert(values.subrange(0, i + 1).drop_last() =~= values.subrange(0, i as int));
            if self.match_index.keys[i] != self.config.node_id && self.match_index.values[i] >= n {
                count = count + 1;
            }
            i = i + 1;
        }
        assert(keys.subrange(0, total as int) =~= keys);
        assert(values.subrange(0, total as int) =~= values);
        count
    }

    /// Whether the leader may take the entry at the index `n` as
    /// committed.
    pub open spec fn spec_committable(&self, state: &ClusterStateManager, n: u64) -> bool {
        committable(
            self.terms@,
            self.match_index.keys@,
            self.match_index.values@,
            self.config.node_id@,
            state.state.current_term,
            state.state.quorum(),
            n,
        )
    }

    /// Whether a peer is noted as holding the entry at `index`: whether a
    /// follower has acknowledged it.
    pub open spec fn acknowledged(&self, index: u64) -> bool {
        exists|i: int|
            0 <= i < self.match_index.values@.len() && self.match_index.keys@.len()
                == self.match_index.values@.len() && (#[trigger] self.match_index.keys@[i])@
                != self.config.node_id@ && self.match_index.values@[i] >= index
    }

    /// An entry that the leader may take as committed, where a quorum is
    /// more than the leader alone, has been acknowledged by a follower, and
    /// so has every entry before it.
    pub proof fn lemma_committable_is_acknowledged(&self, state: &ClusterStateManager, n: u64)
        requires
            self.spec_committable(state, n),
            state.state.quorum() >= 2,
        ensures
            forall|index: u64| index <= n ==> #[trigger] self.acknowledged(index),
    {
        crate::cluster::protocol::lemma_committed_is_acknowledged(
            self.terms@,
            self.match_index.keys@,
            self.match_index.values@,
            self.config.node_id@,
            state.state.current_term,
            state.state.quorum(),
            n,
        );
        let i = choose|i: int|
            0 <= i < self.match_index.values@.len() && self.match_index.keys@.len()
                == self.match_index.values@.len() && (#[trigger] self.match_index.keys@[i])@
                != self.config.node_id@ && self.match_index.values@[i] >= n;
        assert forall|index: u64| index <= n implies #[trigger] self.acknowledged(index) by {
            assert(self.match_index.keys@[i]@ != self.config.node_id@
                && self.match_index.values@[i] >= index);
        }
    }

    /// Moves the commit index forward to the highest index above it whose
    /// entry is of the leader's term and is held by a quorum, the leader
    /// counted in. Where there is no such index, the commit index stays.
    /// Returns the commit index.
    #[verifier::spinoff_prover]
    pub fn update_commit_index(&mut self, state: &mut ClusterStateManager) -> (commit: u64)
        requires
            old(state).wf(),
            old(self).match_index.wf(),
        ensures
            *final(self) == *old(self),
            commit == final(state).state.commit_index,
            *final(state) == (ClusterStateManager {
                state: ClusterState { commit_index: commit, ..old(state).state },
                ..*old(state)
            }),
            commit >= old(state).state.commit_index,
            commit > old(state).state.commit_index ==> old(self).spec_committable(old(state), commit),
            forall|n: u64|
                n > commit && n > old(state).state.commit_index ==> !#[trigger] old(
                    self,
                ).spec_committable(old(state), n),
    {
        let quorum: usize = state.get_quorum_size();
        let term: u64 = state.state.current_term;
        let commit: u64 = state.state.commit_index;
        let mut n: usize = self.terms.len();
        while n > 0 && n as u64 > commit
            invariant
                n <= self.terms@.len(),
                *self == *old(self),
                *state == *old(state),
                state.wf(),
                self.match_index.wf(),
                quorum == state.state.quorum(),
                term == state.state.current_term,
                commit == state.state.commit_index,
                forall|m: u64| m > n && m > commit ==> !#[trigger] self.spec_committable(state, m),
            decreases n,
        {
            if self.terms[n - 1] == term {
                let acks: usize = self.count_acked(n as u64);
                if acks >= quorum - 1 {
                    state.state.commit_index = n as u64;
                    return n as u64;
                }
            }
            n = n - 1;
        }
        commit
    }

    /// Concludes the round of replication under way: the peers that were
    /// counted as accepting are, with the leader, a quorum or not. With a
    /// quorum the commit index moves forward as far as it may. The count
    /// starts anew. Returns whether they are a quorum. A node that is not
    /// the leader refuses and keeps its count.
    pub fn replicate_to_followers(&mut self, state: &mut ClusterStateManager) -> (r: Result<
        bool,
        ReplicationError,
    >)
        requires
            old(state).wf(),
            old(self).match_index.wf(),
        ensures
            !old(state).spec_is_leader() ==> r == Err::<bool, ReplicationError>(
                ReplicationError::NotLeader,
            ) && *final(state) == *old(state) && *final(self) == *old(self),
            old(state).spec_is_leader() ==> {
                let success = old(self).accepted + 1 >= old(state).state.quorum();
                &&& *final(self) == (ReplicationManager { accepted: 0, ..*old(self) })
                &&& r == Ok::<bool, ReplicationError>(success)
                &&& !success ==> *final(state) == *old(state)
                &&& success ==> {
                    let commit = final(state).state.commit_index;
                    &&& *final(state) == (ClusterStateManager {
                        state: ClusterState { commit_index: commit, ..old(state).state },
                        ..*old(state)
                    })
                    &&& commit >= old(state).state.commit_index
                    &&& commit > old(state).state.commit_index ==> old(self).spec_committable(
                        old(state),
                        commit,
                    )
                    &&& forall|n: u64|
                        n > commit && n > old(state).state.commit_index ==> !#[trigger] old(
                            self,
                        ).spec_committable(old(state), n)
                }
            },
    {
        if !state.is_leader() {
            return Err(ReplicationError::NotLeader);
        }
        let quorum_size: usize = state.get_quorum_size();
        let success: bool = self.accepted >= quorum_size - 1;
        if success {
            self.update_commit_index(state);
        }
        self.accepted = 0;
        Ok(success)
    }

    /// The peers to send entries to: the nodes that are alive, this node
    /// left out, in the order in which the nodes were added.
    pub fn peers_to_address(&self, state: &ClusterStateManager) -> (peers: Vec<String>)
        requires
            state.wf(),
        ensures
            peers@.map_values(|s: String| s@) == alive_peers(
                state.state.nodes.keys@,
                state.state.nodes.values@,
                self.config.node_id@,
            ),
    {
        let mut peers: Vec<String> = Vec::new();
        let count: usize = state.state.nodes.len();
        let ghost keys = state.state.nodes.keys@;
        let ghost nodes = state.state.nodes.values@;
        let ghost own = self.config.node_id@;
        let mut i: usize = 0;
        while i < count
            invariant
                i <= count == keys.len() == nodes.len(),
                keys == state.state.nodes.keys@,
                nodes == state.state.nodes.values@,
                own == self.config.node_id@,
                peers@.map_values(|s: String| s@) == alive_peers(
                    keys.subrange(0, i as int),
                    nodes.subrange(0, i as int),
                    own,
                ),
            decreases count - i,
        {
            let ghost before = peers@;
            assert(keys.subrange(0, i + 1).drop_last() =~= keys.subrange(0, i as int));
            assert(nodes.subrange(0, i + 1).drop_last() =~= nodes.subrange(0, i as int));
            if state.state.nodes.values[i].is_alive && state.state.nodes.keys[i]
                != self.config.node_id {
                peers.push(state.state.nodes.keys[i].clone());
                assert(peers@.map_values(|s: String| s@) =~= before.map_values(|s: String| s@).push(
                    keys[i as int]@,
                ));
            }
            i = i + 1;
        }
        assert(keys.subrange(0, count as int) =~= keys);
        assert(nodes.subrange(0, count as int) =~= nodes);
        peers
    }

    /// Whether the entry at `index` is committed: a client is told of its
    /// write only then.
    pub fn is_committed(&self, state: &ClusterStateManager, index: u64) -> (b: bool)
        ensures
            b == (index <= state.state.commit_index),
    {
        index <= state.get_state().commit_index
    }

    /// The payload of the record at `offset`, if the log holds one there.
    pub fn read_entry(&self, log: &Log, offset: u64) -> (value: Option<Vec<u8>>)
        requires
            log.wf(),
        ensures
            match value {
                Some(bytes) => log.spec_read(offset) is Ok && bytes@ == log.spec_read(
                    offset,
                )->Ok_0.value,
                None => log.spec_read(offset) is Err,
            },
    {
        match log.read(offset) {
            Ok(record) => Some(record.value),
            Err(_) => None,
        }
    }

    /// The highest index known to be held by a quorum.
    pub fn get_commit_index(&self, state: &ClusterStateManager) -> (index: u64)
        ensures
            index == state.state.commit_index,
    {
        state.get_state().commit_index
    }

    /// The highest index in the node's log.
    pub fn get_last_applied(&self, state: &ClusterStateManager) -> (index: u64)
        ensures
            index == state.state.last_applied,
    {
        state.get_state().last_applied
    }
}

} // verus!
