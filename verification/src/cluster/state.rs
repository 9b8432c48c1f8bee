//! The state of one node of the cluster: its term and vote, the leader it
//! knows, the nodes it knows, and how far its log is applied and committed.
//! The state has one owner; whoever shares it between tasks guards it with
//! one lock, so that each operation below is one step.

use crate::cluster::table::{key_at, StringMap};
use vstd::prelude::*;

verus! {

/// The role of a node.
#[derive(Debug, Clone, Copy, PartialEq, Eq, Structural)]
pub enum NodeRole {
    Follower,
    Candidate,
    Leader,
}

/// What a node knows of a node of the cluster.
#[derive(Debug, Clone)]
pub struct NodeInfo {
    pub id: String,
    pub addr: String,
    pub role: NodeRole,
    pub term: u64,
    /// When the node was last heard of, in milliseconds of the caller's
    /// clock.
    pub last_heartbeat: Option<u64>,
    pub is_alive: bool,
}

impl NodeInfo {
    /// A node that was just heard of: a follower in term 0, alive.
    pub fn new(id: String, addr: String) -> (node: Self)
        ensures
            node == (NodeInfo {
                id,
                addr,
                role: NodeRole::Follower,
                term: 0,
                last_heartbeat: None,
                is_alive: true,
            }),
    {
        Self { id, addr, role: NodeRole::Follower, term: 0, last_heartbeat: None, is_alive: true }
    }

    /// Whether the node is a leader.
    pub fn is_leader(&self) -> (b: bool)
        ensures
            b == (self.role == NodeRole::Leader),
    {
        self.role == NodeRole::Leader
    }

    /// Whether the node is a follower.
    pub fn is_follower(&self) -> (b: bool)
        ensures
            b == (self.role == NodeRole::Follower),
    {
        self.role == NodeRole::Follower
    }

    /// Whether the node is a candidate.
    pub fn is_candidate(&self) -> (b: bool)
        ensures
            b == (self.role == NodeRole::Candidate),
    {
        self.role == NodeRole::Candidate
    }

    /// A copy of the node.
    pub fn copy(&self) -> (node: Self)
        ensures
            node == *self,
    {
        Self {
            id: self.id.clone(),
            addr: self.addr.clone(),
            role: self.role,
            term: self.term,
            last_heartbeat: self.last_heartbeat,
            is_alive: self.is_alive,
        }
    }
}

/// The name that an optional string holds.
pub open spec fn name_of(name: Option<String>) -> Option<Seq<char>> {
    match name {
        Some(s) => Some(s@),
        None => None,
    }
}

/// What a step may do to term and vote: the term never goes back; while
/// the term stays, a vote that was cast stays, and a vote is cast only for
/// `cast`; when the term goes up, the vote is cleared or cast for `cast` in
/// the new term.
pub open spec fn term_vote_step(before: ClusterState, after: ClusterState, cast: Option<Seq<char>>) -> bool {
    &&& after.current_term >= before.current_term
    &&& after.current_term > before.current_term ==> after.voted_for is None || name_of(
        after.voted_for,
    ) == cast
    &&& after.current_term == before.current_term ==> name_of(after.voted_for) == name_of(
        before.voted_for,
    ) || (before.voted_for is None && name_of(after.voted_for) == cast)
}

/// The names of the nodes that are alive, in the order of the table.
pub open spec fn alive_names(keys: Seq<String>, nodes: Seq<NodeInfo>) -> Seq<Seq<char>>
    decreases nodes.len(),
{
    if nodes.len() == 0 || keys.len() != nodes.len() {
        Seq::empty()
    } else {
        let before = alive_names(keys.drop_last(), nodes.drop_last());
        if nodes.last().is_alive {
            before.push(keys.last()@)
        } else {
            before
        }
    }
}

/// The alive names are the names of the table whose node is alive.
pub proof fn lemma_alive_names(keys: Seq<String>, nodes: Seq<NodeInfo>, name: Seq<char>)
    requires
        keys.len() == nodes.len(),
    ensures
        alive_names(keys, nodes).contains(name) <==> exists|i: int|
            key_at(keys, name, i) && nodes[i].is_alive,
        alive_names(keys, nodes).len() <= nodes.len(),
    decreases nodes.len(),
{
    if nodes.len() > 0 {
        let front_keys = keys.drop_last();
        let front = nodes.drop_last();
        let last = nodes.len() - 1;
        lemma_alive_names(front_keys, front, name);
        let before = alive_names(front_keys, front);
        let all = alive_names(keys, nodes);
        if all.contains(name) {
            if before.contains(name) {
                let i = choose|i: int| key_at(front_keys, name, i) && front[i].is_alive;
                assert(key_at(keys, name, i) && nodes[i].is_alive);
            } else {
                let p = choose|p: int| 0 <= p < all.len() && all[p] == name;
                if nodes.last().is_alive {
                    if p < before.len() {
                        assert(before[p] == name);
                    }
                    assert(key_at(keys, name, last) && nodes[last].is_alive);
                } else {
                    assert(before[p] == name);
                }
            }
        }
        if exists|i: int| key_at(keys, name, i) && nodes[i].is_alive {
            let i = choose|i: int| key_at(keys, name, i) && nodes[i].is_alive;
            if i < last {
                assert(key_at(front_keys, name, i) && front[i].is_alive);
                let p = choose|p: int| 0 <= p < before.len() && before[p] == name;
                assert(all[p] == name);
            } else {
                assert(all[all.len() - 1] == name);
            }
        }
    }
}

/// The state of a node.
#[derive(Debug, Clone)]
pub struct ClusterState {
    pub current_term: u64,
    pub voted_for: Option<String>,
    pub leader_id: Option<String>,
    pub nodes: StringMap<NodeInfo>,
    pub commit_index: u64,
    pub last_applied: u64,
}

impl ClusterState {
    /// The table of nodes is well formed.
    pub open spec fn wf(&self) -> bool {
        self.nodes.wf()
    }

    /// The number of nodes that are alive.
    pub open spec fn alive_count(&self) -> nat {
        alive_names(self.nodes.keys@, self.nodes.values@).len()
    }

    /// The number of nodes that make a majority of the alive ones.
    pub open spec fn quorum(&self) -> nat {
        self.alive_count() / 2 + 1
    }

    /// The state with the term `term` in place of an older one: a newer
    /// term clears the vote and the leader.
    pub open spec fn observed(self, term: u64) -> ClusterState {
        if term > self.current_term {
            ClusterState { current_term: term, voted_for: None, leader_id: None, ..self }
        } else {
            self
        }
    }
}

impl Default for ClusterState {
    /// The state of a node that knows nothing yet: term 0, no vote, no
    /// leader, no nodes, nothing applied or committed.
    fn default() -> (state: Self)
        ensures
            state.wf(),
            state.current_term == 0,
            state.voted_for is None,
            state.leader_id is None,
            state.nodes@ == Map::<Seq<char>, NodeInfo>::empty(),
            state.nodes.keys@.len() == 0,
            state.commit_index == 0,
            state.last_applied == 0,
    {
        Self {
            current_term: 0,
            voted_for: None,
            leader_id: None,
            nodes: StringMap::new(),
            commit_index: 0,
            last_applied: 0,
        }
    }
}

/// The owner of a node's state.
#[derive(Debug)]
pub struct ClusterStateManager {
    pub state: ClusterState,
    pub node_id: String,
}

impl ClusterStateManager {
    /// The state is well formed.
    pub open spec fn wf(&self) -> bool {
        self.state.wf()
    }

    /// Whether this node is the leader it knows.
    pub open spec fn spec_is_leader(&self) -> bool {
        name_of(self.state.leader_id) == Some(self.node_id@)
    }

    /// Whether `after` differs from this manager in the node `name` alone,
    /// which is `node` there.
    pub open spec fn node_set(self, after: Self, name: Seq<char>, node: NodeInfo) -> bool {
        &&& after.node_id == self.node_id
        &&& after.state.nodes@ == self.state.nodes@.insert(name, node)
        &&& after.state.nodes.keys == self.state.nodes.keys
        &&& after.state == (ClusterState { nodes: after.state.nodes, ..self.state })
    }

    /// Whether `after` holds the nodes of this manager as they are once
    /// the node has seen the term `term`: this node a follower if the term
    /// is newer than its own and the node is known, the rest as before.
    pub open spec fn nodes_observed(self, after: Self, term: u64) -> bool {
        if term > self.state.current_term && self.state.nodes@.contains_key(self.node_id@) {
            &&& after.state.nodes.keys == self.state.nodes.keys
            &&& after.state.nodes@ == self.state.nodes@.insert(
                self.node_id@,
                NodeInfo { role: NodeRole::Follower, ..self.state.nodes@[self.node_id@] },
            )
        } else {
            after.state.nodes == self.state.nodes
        }
    }

    /// The manager of a node that knows nothing yet.
    pub fn new(node_id: String) -> (manager: Self)
        ensures
            manager.wf(),
            manager.node_id == node_id,
            manager.state.current_term == 0,
            manager.state.voted_for is None,
            manager.state.leader_id is None,
            manager.state.nodes@ == Map::<Seq<char>, NodeInfo>::empty(),
            manager.state.commit_index == 0,
            manager.state.last_applied == 0,
    {
        Self { state: ClusterState::default(), node_id }
    }

    /// The state as it is now.
    pub fn get_state(&self) -> (state: &ClusterState)
        ensures
            *state == self.state,
    {
        &self.state
    }

    /// Puts in place of the state what `f` makes of it.
    pub fn update_state<F: FnOnce(&ClusterState) -> ClusterState>(&mut self, f: F)
        requires
            f.requires((&old(self).state,)),
        ensures
            f.ensures((&old(self).state,), final(self).state),
            final(self).node_id == old(self).node_id,
    {
        let next = f(&self.state);
        self.state = next;
    }

    /// Starts a new term: the term goes up by one, vote and leader are
    /// cleared. Returns the new term.
    pub fn increment_term(&mut self) -> (term: u64)
        requires
            old(self).state.current_term < u64::MAX,
        ensures
            term == old(self).state.current_term + 1,
            term_vote_step(old(self).state, final(self).state, None),
            *final(self) == (ClusterStateManager {
                state: ClusterState {
                    current_term: term,
                    voted_for: None,
                    leader_id: None,
                    ..old(self).state
                },
                ..*old(self)
            }),
    {
        self.state.current_term = self.state.current_term + 1;
        self.state.voted_for = None;
        self.state.leader_id = None;
        self.state.current_term
    }

    /// Takes note of the term of a message: a newer term than the node's
    /// own becomes the node's term, clears vote and leader, and makes the
    /// node a follower. Returns whether the term was newer.
    pub fn observe_term(&mut self, term: u64) -> (newer: bool)
        requires
            old(self).wf(),
        ensures
            final(self).wf(),
            newer == (term > old(self).state.current_term),
            term_vote_step(old(self).state, final(self).state, None),
            final(self).node_id == old(self).node_id,
            !newer ==> *final(self) == *old(self),
            old(self).nodes_observed(*final(self), term),
            final(self).state == (ClusterState {
                nodes: final(self).state.nodes,
                ..old(self).state.observed(term)
            }),
    {
        if term <= self.state.current_term {
            return false;
        }
        self.state.current_term = term;
        self.state.voted_for = None;
        self.state.leader_id = None;
        let own = self.node_id.clone();
        self.set_role(own.as_str(), NodeRole::Follower);
        true
    }

    /// Makes `leader_id` the leader that the node knows.
    pub fn set_leader(&mut self, leader_id: String)
        ensures
            *final(self) == (ClusterStateManager {
                state: ClusterState { leader_id: Some(leader_id), ..old(self).state },
                ..*old(self)
            }),
    {
        self.state.leader_id = Some(leader_id);
    }

    /// Gives the node `node_id` the role `role`, if the node is known.
    pub fn set_role(&mut self, node_id: &str, role: NodeRole)
        requires
            old(self).wf(),
        ensures
            final(self).wf(),
            !old(self).state.nodes@.contains_key(node_id@) ==> *final(self) == *old(self),
            old(self).state.nodes@.contains_key(node_id@) ==> old(self).node_set(
                *final(self),
                node_id@,
                NodeInfo { role, ..old(self).state.nodes@[node_id@] },
            ),
    {
        match self.state.nodes.index_of(node_id) {
            Some(i) => {
                let mut node = self.state.nodes.values[i].copy();
                node.role = role;
                self.state.nodes.set_value(i, node);
            },
            None => {},
        }
    }

    /// Adds a node under its id, in place of a node that was known under
    /// that id.
    pub fn add_node(&mut self, node_info: NodeInfo)
        requires
            old(self).wf(),
        ensures
            final(self).wf(),
            final(self).node_id == old(self).node_id,
            final(self).state.nodes@ == old(self).state.nodes@.insert(node_info.id@, node_info),
            final(self).state == (ClusterState { nodes: final(self).state.nodes, ..old(self).state }),
    {
        let id = node_info.id.clone();
        self.state.nodes.insert(id, node_info);
    }

    /// Forgets the node `node_id`.
    pub fn remove_node(&mut self, node_id: &str)
        requires
            old(self).wf(),
        ensures
            final(self).wf(),
            final(self).node_id == old(self).node_id,
            final(self).state.nodes@ == old(self).state.nodes@.remove(node_id@),
            final(self).state == (ClusterState { nodes: final(self).state.nodes, ..old(self).state }),
    {
        self.state.nodes.remove(node_id);
    }

    /// Notes that the node `node_id` was heard of at `now`: it is alive. A
    /// node that is not known stays unknown.
    pub fn update_heartbeat(&mut self, node_id: &str, now: u64)
        requires
            old(self).wf(),
        ensures
            final(self).wf(),
            !old(self).state.nodes@.contains_key(node_id@) ==> *final(self) == *old(self),
            old(self).state.nodes@.contains_key(node_id@) ==> old(self).node_set(
                *final(self),
                node_id@,
                NodeInfo {
                    last_heartbeat: Some(now),
                    is_alive: true,
                    ..old(self).state.nodes@[node_id@]
                },
            ),
    {
        match self.state.nodes.index_of(node_id) {
            Some(i) => {
                let mut node = self.state.nodes.values[i].copy();
                node.last_heartbeat = Some(now);
                node.is_alive = true;
                self.state.nodes.set_value(i, node);
            },
            None => {},
        }
    }

    /// Marks the node `node_id` as dead, if the node is known.
    pub fn mark_node_dead(&mut self, node_id: &str)
        requires
            old(self).wf(),
        ensures
            final(self).wf(),
            !old(self).state.nodes@.contains_key(node_id@) ==> *final(self) == *old(self),
            old(self).state.nodes@.contains_key(node_id@) ==> old(self).node_set(
                *final(self),
                node_id@,
                NodeInfo { is_alive: false, ..old(self).state.nodes@[node_id@] },
            ),
    {
        match self.state.nodes.index_of(node_id) {
            Some(i) => {
                let mut node = self.state.nodes.values[i].copy();
                node.is_alive = false;
                self.state.nodes.set_value(i, node);
            },
            None => {},
        }
    }

    /// The leader that the node knows.
    pub fn get_leader(&self) -> (leader: Option<String>)
        ensures
            leader == self.state.leader_id,
    {
        match &self.state.leader_id {
            Some(id) => Some(id.clone()),
            None => None,
        }
    }

    /// Whether this node is the leader it knows.
    pub fn is_leader(&self) -> (b: bool)
        ensures
            b == self.spec_is_leader(),
    {
        match &self.state.leader_id {
            Some(id) => *id == self.node_id,
            None => false,
        }
    }

    /// The ids of the nodes that are alive, in the order in which the
    /// nodes were added.
    pub fn get_alive_nodes(&self) -> (alive: Vec<String>)
        requires
            self.wf(),
        ensures
            alive@.len() == self.state.alive_count(),
            alive@.map_values(|s: String| s@) == alive_names(
                self.state.nodes.keys@,
                self.state.nodes.values@,
            ),
    {
        let mut alive: Vec<String> = Vec::new();
        let count: usize = self.state.nodes.len();
        let ghost keys = self.state.nodes.keys@;
        let ghost nodes = self.state.nodes.values@;
        let mut i: usize = 0;
        while i < count
            invariant
                i <= count == keys.len() == nodes.len(),
                keys == self.state.nodes.keys@,
                nodes == self.state.nodes.values@,
                alive@.map_values(|s: String| s@) == alive_names(
                    keys.subrange(0, i as int),
                    nodes.subrange(0, i as int),
                ),
            decreases count - i,
        {
            let ghost before = alive@;
            assert(keys.subrange(0, i + 1).drop_last() =~= keys.subrange(0, i as int));
            assert(nodes.subrange(0, i + 1).drop_last() =~= nodes.subrange(0, i as int));
            if self.state.nodes.values[i].is_alive {
                alive.push(self.state.nodes.keys[i].clone());
                assert(alive@.map_values(|s: String| s@) =~= before.map_values(|s: String| s@).push(
                    keys[i as int]@,
                ));
            }
            i = i + 1;
        }
        assert(keys.subrange(0, count as int) =~= keys);
        assert(nodes.subrange(0, count as int) =~= nodes);
        alive
    }

    /// The number of nodes that make a majority of the alive ones.
    pub fn get_quorum_size(&self) -> (quorum: usize)
        requires
            self.wf(),
        ensures
            quorum == self.state.quorum(),
    {
        let alive_nodes = self.get_alive_nodes();
        (alive_nodes.len() / 2) + 1
    }
}

} // verus!
