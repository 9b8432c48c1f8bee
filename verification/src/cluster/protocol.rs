//! The replication protocol as mathematics: what a follower makes of a
//! leader's entries, and when a leader may take an entry as committed.

use vstd::prelude::*;

verus! {

/// An entry of the replicated log as a mathematical value. Its index is its
/// place in the log, counted from one.
pub struct EntryView {
    pub term: u64,
    pub command: Seq<u8>,
}

/// What replication reads and changes of a node: its term, its commit
/// index and its log.
pub struct Replica {
    pub current_term: u64,
    pub commit_index: u64,
    pub entries: Seq<EntryView>,
}

/// A leader's request to append entries, as a mathematical value.
pub struct AppendView {
    pub term: u64,
    pub prev_log_index: u64,
    pub prev_log_term: u64,
    pub entries: Seq<EntryView>,
    pub leader_commit: u64,
}

/// A follower's answer to a request to append entries.
#[derive(Debug, Clone, Copy, PartialEq, Eq, Structural)]
pub struct ReplicationResponse {
    pub term: u64,
    pub success: bool,
    pub match_index: u64,
}

/// Whether a log holds, at the index before the entries of a request, an
/// entry of the term that the request names. Index zero is before every
/// log.
pub open spec fn prev_matches(entries: Seq<EntryView>, prev_index: u64, prev_term: u64) -> bool {
    prev_index == 0 || (prev_index <= entries.len() && entries[prev_index - 1].term == prev_term)
}

/// How many of the entries `sent`, from the entry number `from` on, the
/// log already holds after the index `prev`, each under the same term:
/// the place in `sent` of the first entry that is missing or in conflict.
pub open spec fn agreeing_from(entries: Seq<EntryView>, prev: int, sent: Seq<EntryView>, from: int) -> int
    decreases sent.len() - from,
{
    if from < 0 || from >= sent.len() || prev + from >= entries.len() || entries[prev
        + from].term != sent[from].term {
        from
    } else {
        agreeing_from(entries, prev, sent, from + 1)
    }
}

/// How many of the entries `sent` the log already holds after the index
/// `prev`.
pub open spec fn agreeing(entries: Seq<EntryView>, prev: int, sent: Seq<EntryView>) -> int {
    agreeing_from(entries, prev, sent, 0)
}

/// The log with the entries `sent` after the index `prev`: unchanged if it
/// holds them all, else cut back to the entries that agree and extended
/// with the rest of `sent`.
pub open spec fn merged(entries: Seq<EntryView>, prev: int, sent: Seq<EntryView>) -> Seq<EntryView> {
    let keep = agreeing(entries, prev, sent);
    if keep == sent.len() {
        entries
    } else {
        entries.subrange(0, prev + keep) + sent.subrange(keep, sent.len() as int)
    }
}

/// Whether a follower accepts a request: it is not of an older term, the
/// log holds the entry before its entries, and the index of its last entry
/// can be written down.
pub open spec fn accepts(replica: Replica, request: AppendView) -> bool {
    &&& request.term >= replica.current_term
    &&& prev_matches(replica.entries, request.prev_log_index, request.prev_log_term)
    &&& request.prev_log_index + request.entries.len() <= u64::MAX
}

/// The commit index of a follower after a request that it accepted: what
/// the leader has committed, as far as the follower's log reaches.
pub open spec fn follower_commit(leader_commit: u64, last: int) -> u64 {
    if leader_commit <= last {
        leader_commit
    } else {
        last as u64
    }
}

/// What a follower makes of a request: the node afterwards, and its answer.
pub open spec fn follower_step(replica: Replica, request: AppendView) -> (
    Replica,
    ReplicationResponse,
) {
    if request.term < replica.current_term {
        (
            replica,
            ReplicationResponse { term: replica.current_term, success: false, match_index: 0 },
        )
    } else if !accepts(replica, request) {
        (
            Replica { current_term: request.term, ..replica },
            ReplicationResponse { term: request.term, success: false, match_index: 0 },
        )
    } else {
        let entries = merged(replica.entries, request.prev_log_index as int, request.entries);
        (
            Replica {
                current_term: request.term,
                commit_index: follower_commit(request.leader_commit, entries.len() as int),
                entries,
            },
            ReplicationResponse {
                term: request.term,
                success: true,
                match_index: (request.prev_log_index + request.entries.len()) as u64,
            },
        )
    }
}

/// Whether the log holds, at the place number `j` after the index `prev`,
/// an entry of the term of the entry number `j` of `sent`.
pub open spec fn agrees_at(entries: Seq<EntryView>, prev: int, sent: Seq<EntryView>, j: int) -> bool {
    prev + j < entries.len() && entries[prev + j].term == sent[j].term
}

/// Up to the place that `agreeing_from` returns, the log holds the entries
/// sent, and there it does not.
pub proof fn lemma_agreeing(entries: Seq<EntryView>, prev: int, sent: Seq<EntryView>, from: int)
    requires
        0 <= from <= sent.len(),
        0 <= prev,
    ensures
        from <= agreeing_from(entries, prev, sent, from) <= sent.len(),
        forall|j: int|
            from <= j < agreeing_from(entries, prev, sent, from) ==> #[trigger] agrees_at(
                entries,
                prev,
                sent,
                j,
            ),
        ({
            let k = agreeing_from(entries, prev, sent, from);
            k < sent.len() ==> !agrees_at(entries, prev, sent, k)
        }),
    decreases sent.len() - from,
{
    if !(from >= sent.len() || prev + from >= entries.len() || entries[prev + from].term
        != sent[from].term) {
        lemma_agreeing(entries, prev, sent, from + 1);
        assert(agrees_at(entries, prev, sent, from));
    }
}

/// A log that holds all the entries sent agrees with all of them.
pub proof fn lemma_agreeing_all(entries: Seq<EntryView>, prev: int, sent: Seq<EntryView>, from: int)
    requires
        0 <= from <= sent.len(),
        0 <= prev,
        forall|j: int| from <= j < sent.len() ==> #[trigger] agrees_at(entries, prev, sent, j),
    ensures
        agreeing_from(entries, prev, sent, from) == sent.len(),
    decreases sent.len() - from,
{
    if from < sent.len() {
        assert(agrees_at(entries, prev, sent, from));
        lemma_agreeing_all(entries, prev, sent, from + 1);
    }
}

/// After the entries of a request were merged into a log, the log holds
/// them all, and below them what it held before.
pub proof fn lemma_merged(entries: Seq<EntryView>, prev: int, sent: Seq<EntryView>)
    requires
        0 <= prev <= entries.len(),
    ensures
        merged(entries, prev, sent).len() >= prev + sent.len(),
        forall|i: int| 0 <= i < prev ==> merged(entries, prev, sent)[i] == entries[i],
        forall|j: int|
            0 <= j < sent.len() ==> #[trigger] agrees_at(merged(entries, prev, sent), prev, sent, j),
        agreeing(merged(entries, prev, sent), prev, sent) == sent.len(),
        merged(merged(entries, prev, sent), prev, sent) == merged(entries, prev, sent),
{
    let keep = agreeing(entries, prev, sent);
    let after = merged(entries, prev, sent);
    lemma_agreeing(entries, prev, sent, 0);
    if keep > 0 {
        assert(agrees_at(entries, prev, sent, keep - 1));
    }
    assert forall|j: int| 0 <= j < sent.len() implies #[trigger] agrees_at(
        after,
        prev,
        sent,
        j,
    ) by {
        if keep < sent.len() {
            if j < keep {
                assert(agrees_at(entries, prev, sent, j));
                assert(after[prev + j] == entries[prev + j]);
            } else {
                assert(after[prev + j] == sent[j]);
            }
        } else {
            assert(agrees_at(entries, prev, sent, j));
        }
    }
    lemma_agreeing_all(after, prev, sent, 0);
}

/// Replaying a request on a follower that has accepted it changes nothing:
/// the follower accepts it again, keeps its log as it is, entry for entry,
/// and gives the same answer.
pub proof fn lemma_replay_is_idempotent(replica: Replica, request: AppendView)
    requires
        follower_step(replica, request).1.success,
    ensures
        follower_step(follower_step(replica, request).0, request) == follower_step(
            replica,
            request,
        ),
{
    let prev = request.prev_log_index as int;
    let once = follower_step(replica, request).0;
    lemma_merged(replica.entries, prev, request.entries);
    if prev > 0 {
        assert(once.entries[prev - 1] == replica.entries[prev - 1]);
    }
    assert(accepts(once, request));
}

/// A follower that accepts a request answers with the leader's term and
/// holds afterwards every entry of the request under its term, up to the
/// match index that it answers: it has applied its log at least that far.
pub proof fn lemma_accepted_entries_are_held(replica: Replica, request: AppendView)
    requires
        follower_step(replica, request).1.success,
    ensures
        ({
            let (after, answer) = follower_step(replica, request);
            &&& answer.term == request.term
            &&& after.current_term == request.term
            &&& answer.match_index == request.prev_log_index + request.entries.len()
            &&& after.entries.len() >= answer.match_index
            &&& forall|j: int|
                0 <= j < request.entries.len() ==> #[trigger] agrees_at(
                    after.entries,
                    request.prev_log_index as int,
                    request.entries,
                    j,
                )
        }),
{
    lemma_merged(replica.entries, request.prev_log_index as int, request.entries);
}

/// The number of the peers, other than the node `own`, whose match index
/// is at least `n`.
pub open spec fn acked(keys: Seq<String>, matches: Seq<u64>, own: Seq<char>, n: u64) -> nat
    decreases matches.len(),
{
    if matches.len() == 0 || keys.len() != matches.len() {
        0
    } else {
        acked(keys.drop_last(), matches.drop_last(), own, n) + if keys.last()@ != own
            && matches.last() >= n {
            1nat
        } else {
            0nat
        }
    }
}

/// Where a peer is counted as holding the entry at `n`, there is one: a
/// peer other than the node itself whose match index is at least `n`.
pub proof fn lemma_acked_has_peer(keys: Seq<String>, matches: Seq<u64>, own: Seq<char>, n: u64)
    requires
        acked(keys, matches, own, n) > 0,
    ensures
        exists|i: int|
            0 <= i < matches.len() && keys.len() == matches.len() && (#[trigger] keys[i])@ != own
                && matches[i] >= n,
    decreases matches.len(),
{
    if matches.len() > 0 && keys.len() == matches.len() {
        let last = matches.len() - 1;
        if keys.last()@ != own && matches.last() >= n {
            assert(keys[last]@ != own && matches[last] >= n);
        } else {
            lemma_acked_has_peer(keys.drop_last(), matches.drop_last(), own, n);
            let i = choose|i: int|
                0 <= i < matches.drop_last().len() && (#[trigger] keys.drop_last()[i])@ != own
                    && matches.drop_last()[i] >= n;
            assert(keys[i]@ != own && matches[i] >= n);
        }
    }
}

/// An entry that a leader may take as committed, where a quorum is more
/// than the leader alone, is held by a peer: a follower has acknowledged
/// it.
pub proof fn lemma_committed_is_acknowledged(
    terms: Seq<u64>,
    keys: Seq<String>,
    matches: Seq<u64>,
    own: Seq<char>,
    current_term: u64,
    quorum: nat,
    n: u64,
)
    requires
        committable(terms, keys, matches, own, current_term, quorum, n),
        quorum >= 2,
    ensures
        exists|i: int|
            0 <= i < matches.len() && keys.len() == matches.len() && (#[trigger] keys[i])@ != own
                && matches[i] >= n,
{
    lemma_acked_has_peer(keys, matches, own, n);
}

/// Whether a leader in the term `current_term` may take the entry at the
/// index `n` as committed: the entry is of the leader's term, and the
/// leader and the peers that hold the entry are a quorum.
pub open spec fn committable(
    terms: Seq<u64>,
    keys: Seq<String>,
    matches: Seq<u64>,
    own: Seq<char>,
    current_term: u64,
    quorum: nat,
    n: u64,
) -> bool {
    &&& 1 <= n <= terms.len()
    &&& terms[n - 1] == current_term
    &&& acked(keys, matches, own, n) + 1 >= quorum
}

/// What a leader makes of an answer to the entries it sent to a peer: the
/// next index and the match index of the peer. An answer that accepts the
/// entries moves both behind the last entry sent; one that refuses them
/// moves the next index back by one, not below one.
pub open spec fn peer_after_reply(
    next_index: u64,
    match_index: u64,
    prev_log_index: u64,
    sent: nat,
    success: bool,
) -> (u64, u64) {
    if success {
        if prev_log_index + sent < u64::MAX {
            ((prev_log_index + sent + 1) as u64, (prev_log_index + sent) as u64)
        } else {
            (u64::MAX, u64::MAX)
        }
    } else if next_index > 1 {
        ((next_index - 1) as u64, match_index)
    } else {
        (1, match_index)
    }
}

} // verus!
