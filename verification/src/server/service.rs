//! The two operations that a node offers to clients, over the log, the
//! state and the managers of the node.

use crate::cluster::config::ClusterConfig;
use crate::cluster::discovery::DiscoveryManager;
use crate::cluster::election::LeaderElection;
use crate::cluster::protocol::EntryView;
use crate::cluster::replication::{stored_len, ReplicationError, ReplicationManager};
use crate::cluster::state::{alive_names, ClusterState, ClusterStateManager};
use crate::log::log::{is_export, FileImage, Log};
use vstd::prelude::*;

verus! {

/// A node: its log, its state, and what runs on them.
#[derive(Debug)]
pub struct WalService {
    pub log: Log,
    pub state_manager: ClusterStateManager,
    pub config: ClusterConfig,
    pub election: LeaderElection,
    pub replication: ReplicationManager,
    pub discovery: DiscoveryManager,
}

/// What a leader does about a write that it has stored.
#[derive(Debug, Clone, Copy, PartialEq, Eq, Structural)]
pub enum WriteStep {
    /// Answer the client with the offset of the record: it is committed.
    Reply(u64),
    /// Replicate again after this many milliseconds: it is not committed
    /// yet.
    Retry(u64),
    /// Fail the write: the node is no longer the leader.
    NotLeader,
}

/// The name of the file that holds the terms of the entries.
pub open spec fn terms_file_name() -> Seq<char> {
    seq!['t', 'e', 'r', 'm', 's']
}

impl WalService {
    /// The replication is tied to the state and the log.
    pub open spec fn wf(&self) -> bool {
        &&& self.replication.coupled(&self.state_manager, &self.log)
        &&& self.discovery.wf()
    }

    /// A node over a log that holds no record yet and a state that has
    /// applied none, its timers reset at `now`.
    pub fn new(log: Log, state_manager: ClusterStateManager, config: ClusterConfig, now: u64) -> (service:
        Self)
        requires
            config.wf(),
            state_manager.wf(),
            state_manager.state.last_applied == 0,
            log.consistent(),
            log.active_segment is Some,
            log.spec_next_offset() == log.spec_first_offset(),
        ensures
            service.wf(),
            service.log == log,
            service.state_manager == state_manager,
            service.config == config,
            service.replication.terms@.len() == 0,
            service.replication.next_index@ == Map::<Seq<char>, u64>::empty(),
            service.replication.match_index@ == Map::<Seq<char>, u64>::empty(),
            service.replication.config.node_id == config.node_id,
            service.election.config.node_id == config.node_id,
            service.discovery.config.node_id == config.node_id,
            service.discovery.config.bind_addr == config.bind_addr,
            service.discovery.config.election_timeout_ms == config.election_timeout_ms,
            service.discovery.known_nodes@ == Map::<Seq<char>, String>::empty(),
            service.election.last_heartbeat == now,
            service.election.election_timer == now,
            service.election.election_timeout == config.election_timeout_ms,
            service.election.heartbeat_interval == config.heartbeat_interval_ms,
    {
        let replication = ReplicationManager::new(config.copy());
        let election = LeaderElection::new(config.copy(), now);
        let discovery = DiscoveryManager::new(config.copy());
        proof {
            replication.lemma_coupled_at_start(&state_manager, &log);
        }
        Self { log, state_manager, config, election, replication, discovery }
    }

    /// A node that goes on over a log that it filled before, with the
    /// terms of its entries as it kept them beside the log, its timers
    /// reset at `now`. None where the log is not consistent or the terms
    /// are not those of its records.
    pub fn reopen(
        log: Log,
        state_manager: ClusterStateManager,
        config: ClusterConfig,
        term_image: &Vec<u8>,
        now: u64,
    ) -> (r: Option<Self>)
        requires
            config.wf(),
            state_manager.wf(),
        ensures
            r is Some <==> ReplicationManager::can_reopen(term_image@, &log),
            match r {
                Some(service) => {
                    &&& service.wf()
                    &&& service.log == log
                    &&& service.config == config
                    &&& service.state_manager == (ClusterStateManager {
                        state: ClusterState {
                            last_applied: service.replication.terms@.len() as u64,
                            ..state_manager.state
                        },
                        ..state_manager
                    })
                    &&& service.replication.terms@ == crate::cluster::replication::terms_of(
                        term_image@,
                    )
                    &&& service.replication.config.node_id == config.node_id
                    &&& service.election.config.node_id == config.node_id
                    &&& service.discovery.config.node_id == config.node_id
                    &&& service.discovery.config.bind_addr == config.bind_addr
                    &&& service.discovery.known_nodes@ == Map::<Seq<char>, String>::empty()
                    &&& service.election.last_heartbeat == now
                    &&& service.election.election_timer == now
                    &&& service.election.election_timeout == config.election_timeout_ms
                    &&& service.election.heartbeat_interval == config.heartbeat_interval_ms
                },
                None => true,
            },
    {
        let mut state_manager = state_manager;
        let replication = match ReplicationManager::reopen(
            config.copy(),
            term_image,
            &mut state_manager,
            &log,
        ) {
            Some(replication) => replication,
            None => { return None; },
        };
        let election = LeaderElection::new(config.copy(), now);
        let discovery = DiscoveryManager::new(config.copy());
        Some(Self { log, state_manager, config, election, replication, discovery })
    }

    /// The files of the node's directory: those of the log, and the file
    /// of the terms of its entries.
    pub fn files(&self) -> (files: Vec<FileImage>)
        ensures
            files@.len() == 2 * self.log.all_segments().len() + 1,
            is_export(files@.drop_last(), self.log.all_segments()),
            files@.last().name@ == terms_file_name(),
            files@.last().data@ == crate::cluster::replication::term_bytes(
                self.replication.terms@,
            ),
    {
        proof {
            reveal_strlit("terms");
        }
        let mut files = self.log.files();
        let ghost of_log = files@;
        files.push(FileImage { name: "terms".to_string(), data: self.replication.term_image() });
        assert(files@.drop_last() =~= of_log);
        files
    }

    /// Starts the node: it registers itself with its own state.
    pub fn start(&mut self)
        requires
            old(self).wf(),
        ensures
            final(self).wf(),
            final(self).log == old(self).log,
            final(self).config == old(self).config,
            final(self).election == old(self).election,
            final(self).replication == old(self).replication,
            final(self).state_manager.node_id == old(self).state_manager.node_id,
            final(self).state_manager.state == (ClusterState {
                nodes: final(self).state_manager.state.nodes,
                ..old(self).state_manager.state
            }),
            final(self).discovery.config == old(self).discovery.config,
            final(self).discovery.known_nodes@ == old(self).discovery.known_nodes@.insert(
                old(self).discovery.config.node_id@,
                old(self).discovery.config.bind_addr,
            ),
            ({
                let own = old(self).discovery.config.node_id@;
                let node = final(self).state_manager.state.nodes@[own];
                &&& final(self).state_manager.state.nodes@ == old(self).state_manager.state.nodes@.insert(own, node)
                &&& node.id@ == own
                &&& node.addr == old(self).discovery.config.bind_addr
                &&& node.role == crate::cluster::state::NodeRole::Follower
                &&& node.term == 0
                &&& node.last_heartbeat is None
                &&& node.is_alive
            }),
    {
        proof {
            reveal(ReplicationManager::coupled);
        }
        self.discovery.start_discovery(&mut self.state_manager);
    }

    /// Takes a write from a client: the leader appends the payload to its
    /// log and returns the offset of the record. A node that is not the
    /// leader refuses. The record is stored then, not yet committed: the
    /// client is answered when `conclude_write` says so.
    pub fn write(&mut self, data: Vec<u8>) -> (r: Result<u64, ReplicationError>)
        requires
            old(self).wf(),
        ensures
            final(self).wf(),
            final(self).config == old(self).config,
            final(self).election == old(self).election,
            final(self).discovery == old(self).discovery,
            !old(self).state_manager.spec_is_leader() ==> r == Err::<u64, ReplicationError>(
                ReplicationError::NotLeader,
            ),
            r is Ok <==> old(self).state_manager.spec_is_leader() && old(self).log.accepts(
                stored_len(old(self).log, data@),
            ),
            old(self).state_manager.spec_is_leader() && r is Err ==> r == Err::<
                u64,
                ReplicationError,
            >(ReplicationError::Storage(old(self).log.refusal(stored_len(old(self).log, data@)))),
            match r {
                Ok(offset) => {
                    &&& old(self).state_manager.spec_is_leader()
                    &&& offset == old(self).log.spec_next_offset()
                    &&& final(self).state_manager.state.last_applied == old(self).state_manager.state.last_applied + 1
                    &&& final(self).replication.replica(
                        &final(self).state_manager,
                        &final(self).log,
                    ).entries == old(self).replication.replica(
                        &old(self).state_manager,
                        &old(self).log,
                    ).entries.push(
                        EntryView {
                            term: old(self).state_manager.state.current_term,
                            command: data@,
                        },
                    )
                },
                Err(_) => {
                    &&& final(self).log == old(self).log
                    &&& final(self).state_manager == old(self).state_manager
                    &&& final(self).replication == old(self).replication
                },
            },
    {
        if !self.state_manager.is_leader() {
            return Err(ReplicationError::NotLeader);
        }
        self.replication.append_entry(&mut self.state_manager, &mut self.log, data)
    }

    /// What the leader does about the write that it stored at `offset`
    /// as the entry at `index`: it answers the client once the entry is
    /// committed, fails the write when it is no longer the leader, and
    /// else replicates again after the replication timeout.
    pub fn write_step(&self, offset: u64, index: u64) -> (step: WriteStep)
        ensures
            step == if !self.state_manager.spec_is_leader() {
                WriteStep::NotLeader
            } else if index <= self.state_manager.state.commit_index {
                WriteStep::Reply(offset)
            } else {
                WriteStep::Retry(self.config.replication_timeout_ms)
            },
    {
        if !self.state_manager.is_leader() {
            WriteStep::NotLeader
        } else if self.replication.is_committed(&self.state_manager, index) {
            WriteStep::Reply(offset)
        } else {
            WriteStep::Retry(self.config.replication_timeout())
        }
    }

    /// Concludes a round of replication for the write that was stored at
    /// `offset` as the entry at `index`: the peers counted as accepting
    /// are a quorum with the leader or not, the commit index moves forward
    /// as far as it may, and the leader answers the client only if the
    /// entry is then committed. A node that is no longer the leader fails
    /// the write.
    pub fn conclude_write(&mut self, offset: u64, index: u64) -> (step: WriteStep)
        requires
            old(self).wf(),
        ensures
            final(self).wf(),
            final(self).log == old(self).log,
            final(self).config == old(self).config,
            final(self).election == old(self).election,
            final(self).discovery == old(self).discovery,
            !old(self).state_manager.spec_is_leader() ==> step == WriteStep::NotLeader
                && final(self).state_manager == old(self).state_manager && final(self).replication
                == old(self).replication,
            old(self).state_manager.spec_is_leader() ==> {
                let quorum = old(self).replication.accepted + 1 >= old(self).state_manager.state.quorum();
                let commit = final(self).state_manager.state.commit_index;
                &&& final(self).replication == (ReplicationManager {
                    accepted: 0,
                    ..old(self).replication
                })
                &&& final(self).state_manager == (ClusterStateManager {
                    state: ClusterState { commit_index: commit, ..old(self).state_manager.state },
                    ..old(self).state_manager
                })
                &&& commit >= old(self).state_manager.state.commit_index
                &&& !quorum ==> commit == old(self).state_manager.state.commit_index
                &&& commit > old(self).state_manager.state.commit_index ==> old(self).replication.spec_committable(&old(self).state_manager, commit)
                &&& forall|n: u64|
                    quorum && n > commit && n > old(self).state_manager.state.commit_index
                        ==> !#[trigger] old(self).replication.spec_committable(
                        &old(self).state_manager,
                        n,
                    )
                &&& step == if index <= commit {
                    WriteStep::Reply(offset)
                } else {
                    WriteStep::Retry(old(self).config.replication_timeout_ms)
                }
                &&& step is Reply && index > old(self).state_manager.state.commit_index && old(self).state_manager.state.quorum() >= 2 ==> old(self).replication.acknowledged(index)
            },
    {
        proof {
            self.replication.lemma_coupled(&self.state_manager, &self.log);
        }
        let concluded = self.replication.replicate_to_followers(&mut self.state_manager);
        proof {
            let commit = self.state_manager.state.commit_index;
            if old(self).state_manager.spec_is_leader() && commit > old(self).state_manager.state.commit_index && old(self).state_manager.state.quorum() >= 2 {
                old(self).replication.lemma_committable_is_acknowledged(
                    &old(self).state_manager,
                    commit,
                );
            }
        }
        proof {
            self.replication.lemma_coupled_again(
                &old(self).replication,
                &old(self).state_manager,
                &self.state_manager,
                &self.log,
            );
        }
        match concluded {
            Ok(_) => self.write_step(offset, index),
            Err(_) => WriteStep::NotLeader,
        }
    }

    /// The payload of the record at `offset`, none if no segment of the
    /// log holds a record there.
    pub fn read(&self, offset: u64) -> (value: Option<Vec<u8>>)
        requires
            self.wf(),
        ensures
            match value {
                Some(bytes) => self.log.spec_read(offset) is Ok && bytes@ == self.log.spec_read(
                    offset,
                )->Ok_0.value,
                None => self.log.spec_read(offset) is Err,
            },
            value is Some <==> self.log.spec_first_offset() <= offset
                < self.log.spec_next_offset(),
    {
        proof {
            reveal(ReplicationManager::coupled);
            if self.log.spec_first_offset() <= offset < self.log.spec_next_offset() {
                self.log.lemma_in_range(offset);
            } else {
                self.log.lemma_out_of_range(offset);
            }
        }
        self.replication.read_entry(&self.log, offset)
    }

    /// Whether this node is the leader it knows.
    pub fn is_leader(&self) -> (b: bool)
        ensures
            b == self.state_manager.spec_is_leader(),
    {
        self.state_manager.is_leader()
    }

    /// The state of the node.
    pub fn get_cluster_state(&self) -> (state: &ClusterState)
        ensures
            *state == self.state_manager.state,
    {
        self.state_manager.get_state()
    }

    /// The ids of the nodes that are alive.
    pub fn get_alive_nodes(&self) -> (alive: Vec<String>)
        requires
            self.state_manager.wf(),
        ensures
            alive@.len() == self.state_manager.state.alive_count(),
            alive@.map_values(|s: String| s@) == alive_names(
                self.state_manager.state.nodes.keys@,
                self.state_manager.state.nodes.values@,
            ),
    {
        self.state_manager.get_alive_nodes()
    }
}

} // verus!
