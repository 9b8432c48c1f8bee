//! Discovery: which peers a node knows of, and which of them it takes to
//! be alive. The caller pings the peers; the node keeps the books.

use crate::cluster::config::ClusterConfig;
use crate::cluster::state::{ClusterState, ClusterStateManager, NodeInfo, NodeRole};
use crate::cluster::table::StringMap;
use vstd::prelude::*;

verus! {

/// A node that asks to be registered.
#[derive(Debug, Clone)]
pub struct NodeRegistration {
    pub node_id: String,
    pub addr: String,
    pub role: NodeRole,
}

/// The discovery of one node.
#[derive(Debug, Clone)]
pub struct DiscoveryManager {
    pub config: ClusterConfig,
    /// The address of every peer that was registered.
    pub known_nodes: StringMap<String>,
}

/// How many election timeouts a node may be silent before it is taken to
/// be dead.
pub const SILENCE_FACTOR: u64 = 3;

/// Whether a node that was last heard of at `last_heartbeat` has been
/// silent at `now` for more than three election timeouts.
pub open spec fn is_silent(last_heartbeat: Option<u64>, now: u64, election_timeout: u64) -> bool {
    match last_heartbeat {
        Some(heard) => now >= heard && now - heard > SILENCE_FACTOR * election_timeout,
        None => false,
    }
}

/// A node after its health was checked at `now` by the node `own`: dead if
/// it is another node and has been silent for too long, else as it was.
pub open spec fn health_checked(
    node: NodeInfo,
    name: Seq<char>,
    own: Seq<char>,
    now: u64,
    election_timeout: u64,
) -> NodeInfo {
    if name != own && is_silent(node.last_heartbeat, now, election_timeout) {
        NodeInfo { is_alive: false, ..node }
    } else {
        node
    }
}

impl DiscoveryManager {
    /// The table of known peers is well formed.
    pub open spec fn wf(&self) -> bool {
        self.known_nodes.wf()
    }

    /// The discovery of the node of `config`, which knows no peer yet.
    pub fn new(config: ClusterConfig) -> (discovery: Self)
        ensures
            discovery.wf(),
            discovery.config == config,
            discovery.known_nodes@ == Map::<Seq<char>, String>::empty(),
    {
        Self { config, known_nodes: StringMap::new() }
    }

    /// Starts discovery: the node registers itself.
    pub fn start_discovery(&mut self, state: &mut ClusterStateManager)
        requires
            old(self).wf(),
            old(state).wf(),
        ensures
            final(self).wf(),
            final(state).wf(),
            final(self).config == old(self).config,
            final(self).known_nodes@ == old(self).known_nodes@.insert(
                old(self).config.node_id@,
                old(self).config.bind_addr,
            ),
            final(state).node_id == old(state).node_id,
            ({
                let node = final(state).state.nodes@[old(self).config.node_id@];
                &&& final(state).state.nodes@ == old(state).state.nodes@.insert(
                    old(self).config.node_id@,
                    node,
                )
                &&& node.id@ == old(self).config.node_id@
                &&& node.addr == old(self).config.bind_addr
                &&& node.role == NodeRole::Follower
                &&& node.term == 0
                &&& node.last_heartbeat is None
                &&& node.is_alive
            }),
            final(state).state == (ClusterState { nodes: final(state).state.nodes, ..old(state).state }),
    {
        let id = self.config.node_id.clone();
        let addr = self.config.bind_addr.clone();
        self.register_node(state, id.as_str(), addr);
    }

    /// Takes the outcome of a ping of the known peer `node_id` at `addr`:
    /// a peer that answered is registered if the node does not know it
    /// yet. The node's own id is passed over.
    pub fn discover_nodes(
        &self,
        state: &mut ClusterStateManager,
        node_id: &str,
        addr: &str,
        reachable: bool,
    )
        requires
            old(state).wf(),
        ensures
            final(state).wf(),
            final(state).node_id == old(state).node_id,
            final(state).state == (ClusterState { nodes: final(state).state.nodes, ..old(state).state }),
            final(state).state.nodes@ == if reachable && node_id@ != self.config.node_id@
                && !old(state).state.nodes@.contains_key(node_id@) {
                old(state).state.nodes@.insert(
                    node_id@,
                    final(state).state.nodes@[node_id@],
                )
            } else {
                old(state).state.nodes@
            },
            reachable && node_id@ != self.config.node_id@ && !old(state).state.nodes@.contains_key(
                node_id@,
            ) ==> {
                let node = final(state).state.nodes@[node_id@];
                &&& node.id@ == node_id@
                &&& node.addr@ == addr@
                &&& node.role == NodeRole::Follower
                &&& node.term == 0
                &&& node.last_heartbeat is None
                &&& node.is_alive
            },
    {
        let own: bool = node_id.to_owned() == self.config.node_id;
        if reachable && !own {
            self.ensure_node_registered(state, node_id, addr);
        } else {
            assert(state.state.nodes@ =~= old(state).state.nodes@);
        }
    }

    /// Registers the node `node_id` at `addr` if the state does not know
    /// it yet.
    pub fn ensure_node_registered(&self, state: &mut ClusterStateManager, node_id: &str, addr: &str)
        requires
            old(state).wf(),
        ensures
            final(state).wf(),
            final(state).node_id == old(state).node_id,
            final(state).state == (ClusterState { nodes: final(state).state.nodes, ..old(state).state }),
            old(state).state.nodes@.contains_key(node_id@) ==> final(state).state.nodes@ == old(state).state.nodes@,
            !old(state).state.nodes@.contains_key(node_id@) ==> {
                let node = final(state).state.nodes@[node_id@];
                &&& final(state).state.nodes@ == old(state).state.nodes@.insert(node_id@, node)
                &&& node.id@ == node_id@
                &&& node.addr@ == addr@
                &&& node.role == NodeRole::Follower
                &&& node.term == 0
                &&& node.last_heartbeat is None
                &&& node.is_alive
            },
    {
        if !state.get_state().nodes.contains_key(node_id) {
            let node_info = NodeInfo::new(node_id.to_owned(), addr.to_owned());
            state.add_node(node_info);
        }
    }

    /// Checks the health of the nodes at `now`: every other node that has
    /// been silent for more than three election timeouts is marked as
    /// dead.
    #[verifier::spinoff_prover]
    pub fn check_node_health(&self, state: &mut ClusterStateManager, now: u64)
        requires
            old(state).wf(),
        ensures
            final(state).wf(),
            final(state).node_id == old(state).node_id,
            final(state).state == (ClusterState { nodes: final(state).state.nodes, ..old(state).state }),
            final(state).state.nodes.keys == old(state).state.nodes.keys,
            final(state).state.nodes.values@.len() == old(state).state.nodes.values@.len(),
            forall|i: int|
                0 <= i < old(state).state.nodes.values@.len() ==> #[trigger] final(state).state.nodes.values@[i] == health_checked(
                    old(state).state.nodes.values@[i],
                    old(state).state.nodes.keys@[i]@,
                    self.config.node_id@,
                    now,
                    self.config.election_timeout_ms,
                ),
    {
        let count: usize = state.state.nodes.len();
        let timeout: u64 = self.config.election_timeout();
        let mut i: usize = 0;
        while i < count
            invariant
                i <= count == old(state).state.nodes.keys@.len(),
                state.wf(),
                state.node_id == old(state).node_id,
                state.state == (ClusterState { nodes: state.state.nodes, ..old(state).state }),
                state.state.nodes.keys == old(state).state.nodes.keys,
                state.state.nodes.values@.len() == count,
                old(state).state.nodes.values@.len() == count,
                timeout == self.config.election_timeout_ms,
                forall|j: int|
                    0 <= j < i ==> #[trigger] state.state.nodes.values@[j] == health_checked(
                        old(state).state.nodes.values@[j],
                        old(state).state.nodes.keys@[j]@,
                        self.config.node_id@,
                        now,
                        timeout,
                    ),
                forall|j: int|
                    i <= j < count ==> #[trigger] state.state.nodes.values@[j] == old(state).state.nodes.values@[j],
            decreases count - i,
        {
            let other: bool = state.state.nodes.keys[i] != self.config.node_id;
            let silent: bool = match state.state.nodes.values[i].last_heartbeat {
                Some(heard) => now >= heard && (now - heard) as u128 > 3 * (timeout as u128),
                None => false,
            };
            if other && silent {
                let mut node = state.state.nodes.values[i].copy();
                node.is_alive = false;
                state.state.nodes.set_value(i, node);
            }
            i = i + 1;
        }
    }

    /// Registers the node `node_id` at `addr`: with the known peers and
    /// with the state, as a follower that is alive.
    pub fn register_node(&mut self, state: &mut ClusterStateManager, node_id: &str, addr: String)
        requires
            old(self).wf(),
            old(state).wf(),
        ensures
            final(self).wf(),
            final(state).wf(),
            final(self).config == old(self).config,
            final(self).known_nodes@ == old(self).known_nodes@.insert(node_id@, addr),
            final(state).node_id == old(state).node_id,
            final(state).state == (ClusterState { nodes: final(state).state.nodes, ..old(state).state }),
            ({
                let node = final(state).state.nodes@[node_id@];
                &&& final(state).state.nodes@ == old(state).state.nodes@.insert(node_id@, node)
                &&& node.id@ == node_id@
                &&& node.addr == addr
                &&& node.role == NodeRole::Follower
                &&& node.term == 0
                &&& node.last_heartbeat is None
                &&& node.is_alive
            }),
    {
        let node_info = NodeInfo::new(node_id.to_owned(), addr.clone());
        self.known_nodes.insert(node_id.to_owned(), addr);
        state.add_node(node_info);
    }

    /// Forgets the node `node_id`: among the known peers and in the state.
    pub fn unregister_node(&mut self, state: &mut ClusterStateManager, node_id: &str)
        requires
            old(self).wf(),
            old(state).wf(),
        ensures
            final(self).wf(),
            final(state).wf(),
            final(self).config == old(self).config,
            final(self).known_nodes@ == old(self).known_nodes@.remove(node_id@),
            final(state).node_id == old(state).node_id,
            final(state).state.nodes@ == old(state).state.nodes@.remove(node_id@),
            final(state).state == (ClusterState { nodes: final(state).state.nodes, ..old(state).state }),
    {
        self.known_nodes.remove(node_id);
        state.remove_node(node_id);
    }

    /// The nodes that the state knows, in the order in which they were
    /// added.
    pub fn get_cluster_nodes(&self, state: &ClusterStateManager) -> (nodes: Vec<NodeInfo>)
        requires
            state.wf(),
        ensures
            nodes@ == state.state.nodes.values@,
    {
        let mut nodes: Vec<NodeInfo> = Vec::new();
        let count: usize = state.state.nodes.len();
        let mut i: usize = 0;
        while i < count
            invariant
                i <= count == state.state.nodes.values@.len(),
                nodes@ == state.state.nodes.values@.subrange(0, i as int),
            decreases count - i,
        {
            nodes.push(state.state.nodes.values[i].copy());
            assert(nodes@ =~= state.state.nodes.values@.subrange(0, i + 1));
            i = i + 1;
        }
        assert(nodes@ =~= state.state.nodes.values@);
        nodes
    }

    /// The ids of the nodes that are alive.
    pub fn get_alive_nodes(&self, state: &ClusterStateManager) -> (alive: Vec<String>)
        requires
            state.wf(),
        ensures
            alive@.len() == state.state.alive_count(),
            alive@.map_values(|s: String| s@) == crate::cluster::state::alive_names(
                state.state.nodes.keys@,
                state.state.nodes.values@,
            ),
    {
        state.get_alive_nodes()
    }

    /// Whether the node `node_id` is known and alive.
    pub fn is_node_alive(&self, state: &ClusterStateManager, node_id: &str) -> (alive: bool)
        requires
            state.wf(),
        ensures
            alive == (state.state.nodes@.contains_key(node_id@)
                && state.state.nodes@[node_id@].is_alive),
    {
        match state.get_state().nodes.get(node_id) {
            Some(node) => node.is_alive,
            None => false,
        }
    }

    /// Notes that the node `node_id` was heard of at `now`.
    pub fn update_node_heartbeat(&self, state: &mut ClusterStateManager, node_id: &str, now: u64)
        requires
            old(state).wf(),
        ensures
            final(state).wf(),
            !old(state).state.nodes@.contains_key(node_id@) ==> *final(state) == *old(state),
            old(state).state.nodes@.contains_key(node_id@) ==> old(state).node_set(
                *final(state),
                node_id@,
                NodeInfo {
                    last_heartbeat: Some(now),
                    is_alive: true,
                    ..old(state).state.nodes@[node_id@]
                },
            ),
    {
        state.update_heartbeat(node_id, now)
    }

    /// What the state knows of the node `node_id`.
    pub fn get_node_info(&self, state: &ClusterStateManager, node_id: &str) -> (info: Option<NodeInfo>)
        requires
            state.wf(),
        ensures
            info == if state.state.nodes@.contains_key(node_id@) {
                Some(state.state.nodes@[node_id@])
            } else {
                None
            },
    {
        match state.get_state().nodes.get(node_id) {
            Some(node) => Some(node.copy()),
            None => None,
        }
    }
}

} // verus!
