//! Leader election: terms, votes, and the moves between follower,
//! candidate and leader. The node's state is handed to each operation by
//! its owner; messages are sent and timers are run by the caller, who hands
//! in what arrived and the time.

use crate::cluster::config::ClusterConfig;
use crate::cluster::state::{
    name_of, term_vote_step, ClusterState, ClusterStateManager, NodeInfo, NodeRole,
};
use vstd::prelude::*;

verus! {

/// A candidate's request for a vote.
#[derive(Debug, Clone)]
pub struct ElectionRequest {
    pub term: u64,
    pub candidate_id: String,
    pub last_log_index: u64,
    pub last_log_term: u64,
}

/// The answer to a request for a vote.
#[derive(Debug, Clone, Copy, PartialEq, Eq, Structural)]
pub struct ElectionResponse {
    pub term: u64,
    pub vote_granted: bool,
}

/// A leader's heartbeat.
#[derive(Debug, Clone)]
pub struct HeartbeatRequest {
    pub term: u64,
    pub leader_id: String,
    pub prev_log_index: u64,
    pub prev_log_term: u64,
    pub entries: Vec<LogEntry>,
    pub leader_commit: u64,
}

/// The answer to a heartbeat.
#[derive(Debug, Clone, Copy, PartialEq, Eq, Structural)]
pub struct HeartbeatResponse {
    pub term: u64,
    pub success: bool,
    pub match_index: u64,
}

/// An entry of the replicated log.
#[derive(Debug, Clone)]
pub struct LogEntry {
    pub term: u64,
    pub index: u64,
    pub command: Vec<u8>,
}

/// What the election loop of a node does next.
#[derive(Debug, Clone, Copy, PartialEq, Eq, Structural)]
pub enum ElectionStep {
    /// Nothing for this many milliseconds.
    Wait(u64),
    /// Stand for election.
    StartElection,
    /// Ask the other nodes for their votes and conclude the election.
    RequestVotes,
    /// Send a heartbeat to every other node, then wait this many
    /// milliseconds.
    SendHeartbeats(u64),
}

/// How long a node that is not registered yet waits before it looks again.
pub const UNKNOWN_NODE_WAIT_MS: u64 = 100;

/// How long a follower waits before it looks at its election timer again.
pub const FOLLOWER_POLL_MS: u64 = 10;

/// Whether a log that ends with an entry of `last_term` at `last_index` is
/// at least as up to date as one that ends with `our_last_term` at
/// `our_last_index`.
pub open spec fn log_up_to_date(
    last_term: u64,
    last_index: u64,
    our_last_term: u64,
    our_last_index: u64,
) -> bool {
    last_term > our_last_term || (last_term == our_last_term && last_index >= our_last_index)
}

/// Whether a node that has voted for `voted_for` may vote for `candidate`.
pub open spec fn may_vote(voted_for: Option<String>, candidate: Seq<char>) -> bool {
    voted_for is None || name_of(voted_for) == Some(candidate)
}

/// The number of votes that `responses` grant.
pub open spec fn granted_votes(responses: Seq<ElectionResponse>) -> nat
    decreases responses.len(),
{
    if responses.len() == 0 {
        0
    } else {
        granted_votes(responses.drop_last()) + if responses.last().vote_granted {
            1nat
        } else {
            0nat
        }
    }
}

/// The newest term among some answers, zero where there is none.
pub open spec fn newest_term(responses: Seq<ElectionResponse>) -> u64
    decreases responses.len(),
{
    if responses.len() == 0 {
        0
    } else {
        let before = newest_term(responses.drop_last());
        if responses.last().term > before {
            responses.last().term
        } else {
            before
        }
    }
}

/// The election of one node.
#[derive(Debug, Clone)]
pub struct LeaderElection {
    pub config: ClusterConfig,
    /// Milliseconds without a heartbeat after which a follower stands for
    /// election.
    pub election_timeout: u64,
    /// Milliseconds between the heartbeats of a leader.
    pub heartbeat_interval: u64,
    /// When the last heartbeat was sent.
    pub last_heartbeat: u64,
    /// When the election timer was last reset.
    pub election_timer: u64,
}

impl LeaderElection {
    /// The election of the node of `config`, its timers reset at `now`.
    pub fn new(config: ClusterConfig, now: u64) -> (election: Self)
        ensures
            election.config == config,
            election.election_timeout == config.election_timeout_ms,
            election.heartbeat_interval == config.heartbeat_interval_ms,
            election.last_heartbeat == now,
            election.election_timer == now,
    {
        Self {
            election_timeout: config.election_timeout(),
            heartbeat_interval: config.heartbeat_interval(),
            last_heartbeat: now,
            election_timer: now,
            config,
        }
    }

    /// Whether the election timeout has passed at `now`.
    pub open spec fn timed_out(&self, now: u64) -> bool {
        now >= self.election_timer && now - self.election_timer >= self.election_timeout
    }

    /// What the loop of a node in the state `state` does at `now`.
    pub open spec fn spec_next_step(&self, state: &ClusterStateManager, now: u64) -> ElectionStep {
        if !state.state.nodes@.contains_key(self.config.node_id@) {
            ElectionStep::Wait(UNKNOWN_NODE_WAIT_MS)
        } else {
            match state.state.nodes@[self.config.node_id@].role {
                NodeRole::Follower => if self.timed_out(now) {
                    ElectionStep::StartElection
                } else {
                    ElectionStep::Wait(FOLLOWER_POLL_MS)
                },
                NodeRole::Candidate => ElectionStep::RequestVotes,
                NodeRole::Leader => ElectionStep::SendHeartbeats(self.heartbeat_interval),
            }
        }
    }

    /// What the election loop does next: a follower waits for its timer and
    /// then stands for election, a candidate asks for votes, a leader sends
    /// heartbeats; a node that is not registered waits.
    pub fn start_election_loop(&self, state: &ClusterStateManager, now: u64) -> (step: ElectionStep)
        requires
            state.wf(),
        ensures
            step == self.spec_next_step(state, now),
    {
        match state.get_state().nodes.get(self.config.node_id.as_str()) {
            Some(node) => match node.role {
                NodeRole::Follower => self.run_follower_loop(now),
                NodeRole::Candidate => ElectionStep::RequestVotes,
                NodeRole::Leader => self.run_leader_loop(),
            },
            None => ElectionStep::Wait(UNKNOWN_NODE_WAIT_MS),
        }
    }

    /// What a follower does at `now`: stand for election once its timer has
    /// run out, wait till then.
    pub fn run_follower_loop(&self, now: u64) -> (step: ElectionStep)
        ensures
            step == if self.timed_out(now) {
                ElectionStep::StartElection
            } else {
                ElectionStep::Wait(FOLLOWER_POLL_MS)
            },
    {
        if self.should_start_election(now) {
            ElectionStep::StartElection
        } else {
            ElectionStep::Wait(FOLLOWER_POLL_MS)
        }
    }

    /// What a leader does: send heartbeats, then wait for the heartbeat
    /// interval.
    pub fn run_leader_loop(&self) -> (step: ElectionStep)
        ensures
            step == ElectionStep::SendHeartbeats(self.heartbeat_interval),
    {
        ElectionStep::SendHeartbeats(self.heartbeat_interval)
    }

    /// Whether the election timeout has passed at `now`.
    pub fn should_start_election(&self, now: u64) -> (b: bool)
        ensures
            b == self.timed_out(now),
    {
        now >= self.election_timer && now - self.election_timer >= self.election_timeout
    }

    /// Stands for election: a new term, the node's vote for itself, the
    /// role of a candidate, the election timer reset. Returns the new term.
    pub fn start_election(&mut self, state: &mut ClusterStateManager, now: u64) -> (term: u64)
        requires
            old(state).wf(),
            old(state).state.current_term < u64::MAX,
        ensures
            final(state).wf(),
            term == old(state).state.current_term + 1,
            *final(self) == (LeaderElection { election_timer: now, ..*old(self) }),
            final(state).node_id == old(state).node_id,
            final(state).state.current_term == term,
            final(state).state.voted_for == Some(old(self).config.node_id),
            final(state).state.leader_id is None,
            final(state).state.commit_index == old(state).state.commit_index,
            final(state).state.last_applied == old(state).state.last_applied,
            final(state).state.nodes.keys == old(state).state.nodes.keys,
            final(state).state.nodes@ == if old(state).state.nodes@.contains_key(
                old(self).config.node_id@,
            ) {
                old(state).state.nodes@.insert(
                    old(self).config.node_id@,
                    NodeInfo {
                        role: NodeRole::Candidate,
                        ..old(state).state.nodes@[old(self).config.node_id@]
                    },
                )
            } else {
                old(state).state.nodes@
            },
            term_vote_step(old(state).state, final(state).state, Some(old(self).config.node_id@)),
    {
        let new_term = state.increment_term();
        state.state.voted_for = Some(self.config.node_id.clone());
        state.set_role(self.config.node_id.as_str(), NodeRole::Candidate);
        self.election_timer = now;
        new_term
    }

    /// The request for a vote that a candidate sends to every other node.
    /// `last_log_term` is the term of the last entry of the node's log.
    pub fn request_votes(&self, state: &ClusterStateManager, last_log_term: u64) -> (request:
        ElectionRequest)
        ensures
            request == (ElectionRequest {
                term: state.state.current_term,
                candidate_id: self.config.node_id,
                last_log_index: state.state.last_applied,
                last_log_term,
            }),
    {
        let current = state.get_state();
        ElectionRequest {
            term: current.current_term,
            candidate_id: self.config.node_id.clone(),
            last_log_index: current.last_applied,
            last_log_term,
        }
    }

    /// The votes of an election: the candidate's own and each one that the
    /// answers grant.
    pub fn count_votes(responses: &Vec<ElectionResponse>) -> (votes: usize)
        requires
            responses@.len() < usize::MAX,
        ensures
            votes == 1 + granted_votes(responses@),
    {
        let mut votes: usize = 1;
        let count: usize = responses.len();
        let mut i: usize = 0;
        while i < count
            invariant
                i <= count == responses@.len(),
                count < usize::MAX,
                votes == 1 + granted_votes(responses@.subrange(0, i as int)),
                votes <= i + 1,
            decreases count - i,
        {
            assert(responses@.subrange(0, i + 1).drop_last() =~= responses@.subrange(0, i as int));
            if responses[i].vote_granted {
                votes = votes + 1;
            }
            i = i + 1;
        }
        assert(responses@.subrange(0, count as int) =~= responses@);
        votes
    }

    /// Concludes an election with `votes` votes: with a quorum the node is
    /// the leader, without it a follower again whose election timer starts
    /// at `now`. Returns whether the election was won.
    pub fn run_candidate_loop(&mut self, state: &mut ClusterStateManager, votes: usize, now: u64) -> (won:
        bool)
        requires
            old(state).wf(),
        ensures
            final(state).wf(),
            won == (votes >= old(state).state.quorum()),
            final(state).node_id == old(state).node_id,
            final(state).state.current_term == old(state).state.current_term,
            final(state).state.voted_for == old(state).state.voted_for,
            final(state).state.commit_index == old(state).state.commit_index,
            final(state).state.last_applied == old(state).state.last_applied,
            final(state).state.nodes.keys == old(state).state.nodes.keys,
            won ==> final(state).state.leader_id == Some(old(self).config.node_id) && *final(self)
                == *old(self),
            !won ==> final(state).state.leader_id == old(state).state.leader_id && *final(self) == (
            LeaderElection { election_timer: now, ..*old(self) }),
            final(state).state.nodes@ == if old(state).state.nodes@.contains_key(
                old(self).config.node_id@,
            ) {
                old(state).state.nodes@.insert(
                    old(self).config.node_id@,
                    NodeInfo {
                        role: if won {
                            NodeRole::Leader
                        } else {
                            NodeRole::Follower
                        },
                        ..old(state).state.nodes@[old(self).config.node_id@]
                    },
                )
            } else {
                old(state).state.nodes@
            },
    {
        if votes >= state.get_quorum_size() {
            self.become_leader(state);
            true
        } else {
            self.become_follower(state, now);
            false
        }
    }

    /// The newest term among the answers to a request for votes.
    pub fn newest_answer(responses: &Vec<ElectionResponse>) -> (term: u64)
        ensures
            term == newest_term(responses@),
    {
        let mut term: u64 = 0;
        let count: usize = responses.len();
        let mut i: usize = 0;
        while i < count
            invariant
                i <= count == responses@.len(),
                term == newest_term(responses@.subrange(0, i as int)),
            decreases count - i,
        {
            assert(responses@.subrange(0, i + 1).drop_last() =~= responses@.subrange(0, i as int));
            if responses[i].term > term {
                term = responses[i].term;
            }
            i = i + 1;
        }
        assert(responses@.subrange(0, count as int) =~= responses@);
        term
    }

    /// Concludes an election with the answers of the peers, at `now`. An
    /// answer of a newer term than the candidate's own ends the candidacy:
    /// the node takes the term over and is a follower whose election timer
    /// starts anew. Else the votes are counted, the candidate's own with
    /// them: with a quorum the node is the leader, without it a follower
    /// again. Returns whether the election was won.
    pub fn conclude_election(
        &mut self,
        state: &mut ClusterStateManager,
        responses: &Vec<ElectionResponse>,
        now: u64,
    ) -> (won: bool)
        requires
            old(state).wf(),
            responses@.len() < usize::MAX,
        ensures
            final(state).wf(),
            final(state).node_id == old(state).node_id,
            term_vote_step(old(state).state, final(state).state, None),
            final(state).state.commit_index == old(state).state.commit_index,
            final(state).state.last_applied == old(state).state.last_applied,
            final(state).state.nodes.keys == old(state).state.nodes.keys,
            newest_term(responses@) > old(state).state.current_term ==> {
                &&& !won
                &&& *final(self) == (LeaderElection { election_timer: now, ..*old(self) })
                &&& old(state).nodes_observed(*final(state), newest_term(responses@))
                &&& final(state).state == (ClusterState {
                    nodes: final(state).state.nodes,
                    ..old(state).state.observed(newest_term(responses@))
                })
            },
            newest_term(responses@) <= old(state).state.current_term ==> {
                &&& won == (1 + granted_votes(responses@) >= old(state).state.quorum())
                &&& final(state).state.current_term == old(state).state.current_term
                &&& final(state).state.voted_for == old(state).state.voted_for
                &&& won ==> final(state).state.leader_id == Some(old(self).config.node_id)
                    && *final(self) == *old(self)
                &&& !won ==> final(state).state.leader_id == old(state).state.leader_id
                    && *final(self) == (LeaderElection { election_timer: now, ..*old(self) })
                &&& final(state).state.nodes@ == if old(state).state.nodes@.contains_key(
                    old(self).config.node_id@,
                ) {
                    old(state).state.nodes@.insert(
                        old(self).config.node_id@,
                        NodeInfo {
                            role: if won {
                                NodeRole::Leader
                            } else {
                                NodeRole::Follower
                            },
                            ..old(state).state.nodes@[old(self).config.node_id@]
                        },
                    )
                } else {
                    old(state).state.nodes@
                }
            },
    {
        let newest: u64 = Self::newest_answer(responses);
        if state.observe_term(newest) {
            self.election_timer = now;
            return false;
        }
        let votes: usize = Self::count_votes(responses);
        self.run_candidate_loop(state, votes, now)
    }

    /// Makes this node the leader: the leader it knows, and its own role.
    pub fn become_leader(&self, state: &mut ClusterStateManager)
        requires
            old(state).wf(),
        ensures
            final(state).wf(),
            final(state).node_id == old(state).node_id,
            final(state).state.leader_id == Some(self.config.node_id),
            final(state).state.nodes.keys == old(state).state.nodes.keys,
            final(state).state == (ClusterState {
                leader_id: final(state).state.leader_id,
                nodes: final(state).state.nodes,
                ..old(state).state
            }),
            final(state).state.nodes@ == if old(state).state.nodes@.contains_key(
                self.config.node_id@,
            ) {
                old(state).state.nodes@.insert(
                    self.config.node_id@,
                    NodeInfo {
                        role: NodeRole::Leader,
                        ..old(state).state.nodes@[self.config.node_id@]
                    },
                )
            } else {
                old(state).state.nodes@
            },
    {
        state.set_leader(self.config.node_id.clone());
        state.set_role(self.config.node_id.as_str(), NodeRole::Leader);
    }

    /// Makes this node a follower whose election timer starts at `now`.
    pub fn become_follower(&mut self, state: &mut ClusterStateManager, now: u64)
        requires
            old(state).wf(),
        ensures
            final(state).wf(),
            *final(self) == (LeaderElection { election_timer: now, ..*old(self) }),
            final(state).node_id == old(state).node_id,
            final(state).state.nodes.keys == old(state).state.nodes.keys,
            final(state).state == (ClusterState {
                nodes: final(state).state.nodes,
                ..old(state).state
            }),
            final(state).state.nodes@ == if old(state).state.nodes@.contains_key(
                old(self).config.node_id@,
            ) {
                old(state).state.nodes@.insert(
                    old(self).config.node_id@,
                    NodeInfo {
                        role: NodeRole::Follower,
                        ..old(state).state.nodes@[old(self).config.node_id@]
                    },
                )
            } else {
                old(state).state.nodes@
            },
    {
        state.set_role(self.config.node_id.as_str(), NodeRole::Follower);
        self.election_timer = now;
    }

    /// The heartbeat that a leader sends to every other node at `now`.
    /// `prev_log_term` is the term of the last entry of the leader's log.
    pub fn send_heartbeats(&mut self, state: &ClusterStateManager, prev_log_term: u64, now: u64) -> (heartbeat:
        HeartbeatRequest)
        ensures
            *final(self) == (LeaderElection { last_heartbeat: now, ..*old(self) }),
            heartbeat.term == state.state.current_term,
            heartbeat.leader_id == old(self).config.node_id,
            heartbeat.prev_log_index == state.state.last_applied,
            heartbeat.prev_log_term == prev_log_term,
            heartbeat.entries@.len() == 0,
            heartbeat.leader_commit == state.state.commit_index,
    {
        let current = state.get_state();
        self.last_heartbeat = now;
        HeartbeatRequest {
            term: current.current_term,
            leader_id: self.config.node_id.clone(),
            prev_log_index: current.last_applied,
            prev_log_term,
            entries: Vec::new(),
            leader_commit: current.commit_index,
        }
    }

    /// Takes the answer of the node `node_id` to a heartbeat, which came at
    /// `now`: a newer term than the leader's own makes the leader a
    /// follower; else an answer that accepts the heartbeat marks the node
    /// as heard of. Returns whether the node is still the leader it was.
    pub fn send_heartbeat(
        &mut self,
        state: &mut ClusterStateManager,
        node_id: &str,
        response: HeartbeatResponse,
        now: u64,
    ) -> (still_leader: bool)
        requires
            old(state).wf(),
        ensures
            final(state).wf(),
            still_leader == (response.term <= old(state).state.current_term),
            final(state).node_id == old(state).node_id,
            term_vote_step(old(state).state, final(state).state, None),
            !still_leader ==> {
                &&& *final(self) == (LeaderElection { election_timer: now, ..*old(self) })
                &&& old(state).nodes_observed(*final(state), response.term)
                &&& final(state).state == (ClusterState {
                    nodes: final(state).state.nodes,
                    ..old(state).state.observed(response.term)
                })
            },
            still_leader ==> {
                &&& *final(self) == *old(self)
                &&& if response.success && old(state).state.nodes@.contains_key(node_id@) {
                    old(state).node_set(
                        *final(state),
                        node_id@,
                        NodeInfo {
                            last_heartbeat: Some(now),
                            is_alive: true,
                            ..old(state).state.nodes@[node_id@]
                        },
                    )
                } else {
                    *final(state) == *old(state)
                }
            },
    {
        if state.observe_term(response.term) {
            self.election_timer = now;
            return false;
        }
        if response.success {
            state.update_heartbeat(node_id, now);
        }
        true
    }

    /// Answers a request for a vote. A request of an older term is
    /// refused. A request of a newer term makes that term the node's own.
    /// The vote is granted if the node has not voted for another candidate
    /// in this term and the candidate's log is at least as up to date as
    /// the node's, which ends with an entry of `last_log_term` at the index
    /// up to which the node has applied its log.
    pub fn handle_vote_request(
        &self,
        state: &mut ClusterStateManager,
        request: ElectionRequest,
        last_log_term: u64,
    ) -> (response: ElectionResponse)
        requires
            old(state).wf(),
        ensures
            final(state).wf(),
            final(state).node_id == old(state).node_id,
            term_vote_step(old(state).state, final(state).state, Some(request.candidate_id@)),
            request.term < old(state).state.current_term ==> {
                &&& response == (ElectionResponse {
                    term: old(state).state.current_term,
                    vote_granted: false,
                })
                &&& *final(state) == *old(state)
            },
            request.term >= old(state).state.current_term ==> {
                let seen = old(state).state.observed(request.term);
                let granted = may_vote(seen.voted_for, request.candidate_id@) && log_up_to_date(
                    request.last_log_term,
                    request.last_log_index,
                    last_log_term,
                    seen.last_applied,
                );
                &&& response == (ElectionResponse { term: request.term, vote_granted: granted })
                &&& old(state).nodes_observed(*final(state), request.term)
                &&& final(state).state == (ClusterState {
                    nodes: final(state).state.nodes,
                    voted_for: final(state).state.voted_for,
                    ..seen
                })
                &&& granted ==> name_of(final(state).state.voted_for) == Some(
                    request.candidate_id@,
                )
                &&& !granted ==> final(state).state.voted_for == seen.voted_for
            },
    {
        if request.term < state.state.current_term {
            return ElectionResponse { term: state.state.current_term, vote_granted: false };
        }
        state.observe_term(request.term);
        let free: bool = match &state.state.voted_for {
            None => true,
            Some(voted) => *voted == request.candidate_id,
        };
        let up_to_date: bool = request.last_log_term > last_log_term || (request.last_log_term
            == last_log_term && request.last_log_index >= state.state.last_applied);
        let vote_granted: bool = free && up_to_date;
        if vote_granted {
            state.state.voted_for = Some(request.candidate_id);
        }
        ElectionResponse { term: state.state.current_term, vote_granted }
    }

    /// Answers a heartbeat that came at `now`. A heartbeat of an older term
    /// is refused with the node's term. Any other makes its term the node's
    /// own if it is newer, its sender the leader that the node knows, and
    /// resets the election timer.
    pub fn handle_heartbeat(
        &mut self,
        state: &mut ClusterStateManager,
        heartbeat: HeartbeatRequest,
        now: u64,
    ) -> (response: HeartbeatResponse)
        requires
            old(state).wf(),
        ensures
            final(state).wf(),
            final(state).node_id == old(state).node_id,
            term_vote_step(old(state).state, final(state).state, None),
            heartbeat.term < old(state).state.current_term ==> {
                &&& response == (HeartbeatResponse {
                    term: old(state).state.current_term,
                    success: false,
                    match_index: 0,
                })
                &&& *final(state) == *old(state)
                &&& *final(self) == *old(self)
            },
            heartbeat.term >= old(state).state.current_term ==> {
                &&& response == (HeartbeatResponse {
                    term: heartbeat.term,
                    success: true,
                    match_index: old(state).state.last_applied,
                })
                &&& *final(self) == (LeaderElection { election_timer: now, ..*old(self) })
                &&& old(state).nodes_observed(*final(state), heartbeat.term)
                &&& final(state).state == (ClusterState {
                    nodes: final(state).state.nodes,
                    leader_id: Some(heartbeat.leader_id),
                    ..old(state).state.observed(heartbeat.term)
                })
            },
    {
        if heartbeat.term < state.state.current_term {
            return HeartbeatResponse {
                term: state.state.current_term,
                success: false,
                match_index: 0,
            };
        }
        state.observe_term(heartbeat.term);
        state.state.leader_id = Some(heartbeat.leader_id);
        self.election_timer = now;
        HeartbeatResponse {
            term: state.state.current_term,
            success: true,
            match_index: state.state.last_applied,
        }
    }
}

} // verus!
