//! The configuration of a node.

use crate::cluster::table::StringMap;
use vstd::prelude::*;
use vstd::string::StringExecFns;

verus! {

/// What a node is started with.
#[derive(Debug, Clone)]
pub struct ClusterConfig {
    /// The id of this node.
    pub node_id: String,
    /// The address that this node listens on.
    pub bind_addr: String,
    /// The address of every node of the cluster, this one included.
    pub nodes: StringMap<String>,
    /// Election timeout in milliseconds.
    pub election_timeout_ms: u64,
    /// Heartbeat interval in milliseconds.
    pub heartbeat_interval_ms: u64,
    /// Replication timeout in milliseconds.
    pub replication_timeout_ms: u64,
    /// The directory of the log.
    pub data_dir: String,
    /// The limit of a segment's store in bytes.
    pub max_segment_bytes: u64,
    /// The length of a segment's index in bytes.
    pub max_index_bytes: u64,
}

/// `uuid::Uuid::new_v4`, written out: a fresh random identifier. Nothing is
/// claimed of the text.
#[verifier::external_body]
pub(crate) fn fresh_node_id() -> String {
    uuid::Uuid::new_v4().to_string()
}

/// An election timeout between `base` and twice `base`, picked by `sample`.
pub fn randomized_timeout(base: u64, sample: u64) -> (timeout: u64)
    ensures
        base <= timeout,
        timeout <= 2 * base,
        timeout == if base + (sample as int) % (base + 1) <= u64::MAX {
            base + (sample as int) % (base + 1)
        } else {
            u64::MAX as int
        },
{
    let spread: u64 = if base == u64::MAX {
        0
    } else {
        sample % (base + 1)
    };
    if spread > u64::MAX - base {
        u64::MAX
    } else {
        base + spread
    }
}

impl ClusterConfig {
    /// The table of addresses is well formed.
    pub open spec fn wf(&self) -> bool {
        self.nodes.wf()
    }

    /// Whether the heartbeat interval is shorter than the election timeout,
    /// as it must be for a leader to keep its followers from standing for
    /// election.
    pub open spec fn spec_timing_valid(&self) -> bool {
        self.heartbeat_interval_ms < self.election_timeout_ms
    }

    /// The configuration of the node `node_id` at `bind_addr`, with the
    /// default timeouts and limits.
    pub fn new(node_id: String, bind_addr: String) -> (config: Self)
        ensures
            config.wf(),
            config.node_id == node_id,
            config.bind_addr == bind_addr,
            config.nodes@ == Map::<Seq<char>, String>::empty(),
            config.election_timeout_ms == 1000,
            config.heartbeat_interval_ms == 100,
            config.replication_timeout_ms == 5000,
            config.data_dir@ == "/tmp/walrus"@,
            config.max_segment_bytes == 1024 * 1024,
            config.max_index_bytes == 1024 * 1024,
    {
        Self {
            node_id,
            bind_addr,
            nodes: StringMap::new(),
            election_timeout_ms: 1000,
            heartbeat_interval_ms: 100,
            replication_timeout_ms: 5000,
            data_dir: String::from_str("/tmp/walrus"),
            max_segment_bytes: 1024 * 1024,
            max_index_bytes: 1024 * 1024,
        }
    }

    /// Adds the node `node_id` at `addr`, in place of an address that was
    /// known for it.
    pub fn add_node(&mut self, node_id: String, addr: String)
        requires
            old(self).wf(),
        ensures
            final(self).wf(),
            final(self).nodes@ == old(self).nodes@.insert(node_id@, addr),
            *final(self) == (ClusterConfig { nodes: final(self).nodes, ..*old(self) }),
    {
        self.nodes.insert(node_id, addr);
    }

    /// The election timeout in milliseconds.
    pub fn election_timeout(&self) -> (ms: u64)
        ensures
            ms == self.election_timeout_ms,
    {
        self.election_timeout_ms
    }

    /// The heartbeat interval in milliseconds.
    pub fn heartbeat_interval(&self) -> (ms: u64)
        ensures
            ms == self.heartbeat_interval_ms,
    {
        self.heartbeat_interval_ms
    }

    /// The replication timeout in milliseconds.
    pub fn replication_timeout(&self) -> (ms: u64)
        ensures
            ms == self.replication_timeout_ms,
    {
        self.replication_timeout_ms
    }

    /// A copy of the configuration.
    pub fn copy(&self) -> (config: Self)
        requires
            self.wf(),
        ensures
            config.wf(),
            config.nodes@ == self.nodes@,
            config.nodes.keys@ == self.nodes.keys@,
            config.nodes.values@ == self.nodes.values@,
            config == (ClusterConfig { nodes: config.nodes, ..*self }),
    {
        let mut nodes: StringMap<String> = StringMap::new();
        let count: usize = self.nodes.len();
        let mut i: usize = 0;
        while i < count
            invariant
                i <= count == self.nodes.keys@.len(),
                self.wf(),
                nodes.wf(),
                nodes.keys@ == self.nodes.keys@.subrange(0, i as int),
                nodes.values@ == self.nodes.values@.subrange(0, i as int),
            decreases count - i,
        {
            let key = self.nodes.keys[i].clone();
            let value = self.nodes.values[i].clone();
            proof {
                if nodes.has(key@) {
                    let p = nodes.place(key@);
                    assert(nodes.keys@[p] == self.nodes.keys@[p]);
                    assert(self.nodes.keys@[p]@ != self.nodes.keys@[i as int]@);
                }
            }
            nodes.insert(key, value);
            assert(nodes.keys@ =~= self.nodes.keys@.subrange(0, i + 1));
            assert(nodes.values@ =~= self.nodes.values@.subrange(0, i + 1));
            i = i + 1;
        }
        assert(nodes.keys@ =~= self.nodes.keys@);
        assert(nodes.values@ =~= self.nodes.values@);
        assert(nodes@ =~= self.nodes@);
        Self {
            node_id: self.node_id.clone(),
            bind_addr: self.bind_addr.clone(),
            nodes,
            election_timeout_ms: self.election_timeout_ms,
            heartbeat_interval_ms: self.heartbeat_interval_ms,
            replication_timeout_ms: self.replication_timeout_ms,
            data_dir: self.data_dir.clone(),
            max_segment_bytes: self.max_segment_bytes,
            max_index_bytes: self.max_index_bytes,
        }
    }

    /// Whether the heartbeat interval is shorter than the election timeout.
    pub fn timing_valid(&self) -> (b: bool)
        ensures
            b == self.spec_timing_valid(),
    {
        self.heartbeat_interval_ms < self.election_timeout_ms
    }
}

impl Default for ClusterConfig {
    /// The default configuration, under a fresh random node id.
    fn default() -> (config: Self)
        ensures
            config.wf(),
            config.bind_addr@ == "127.0.0.1:8080"@,
            config.nodes@ == Map::<Seq<char>, String>::empty(),
            config.election_timeout_ms == 1000,
            config.heartbeat_interval_ms == 100,
            config.replication_timeout_ms == 5000,
            config.data_dir@ == "/tmp/walrus"@,
            config.max_segment_bytes == 1024 * 1024,
            config.max_index_bytes == 1024 * 1024,
    {
        ClusterConfig::new(fresh_node_id(), String::from_str("127.0.0.1:8080"))
    }
}

} // verus!
