use walrus::cluster::config::ClusterConfig;
use walrus::cluster::election::{ElectionStep, LeaderElection};
use walrus::cluster::state::{ClusterStateManager, NodeInfo};
use walrus::log::config;
use walrus::log::log::Log;
use walrus::log::segment::Record;

#[test]
fn test_leader_election() {
    let config = ClusterConfig::new("node-1".to_string(), "127.0.0.1:8080".to_string());

    let mut state_manager = ClusterStateManager::new("node-1".to_string());

    let mut election = LeaderElection::new(config, 0);

    state_manager.add_node(NodeInfo::new("node-1".to_string(), "127.0.0.1:8080".to_string()));
    state_manager.add_node(NodeInfo::new("node-2".to_string(), "127.0.0.1:8081".to_string()));
    state_manager.add_node(NodeInfo::new("node-3".to_string(), "127.0.0.1:8082".to_string()));

    // The loop of a follower 100 ms after it started: its timer of 1000 ms
    // has not run out.
    let step = election.start_election_loop(&state_manager, 100);
    assert_eq!(step, ElectionStep::Wait(10));

    let state = state_manager.get_state();
    assert!(state.nodes.get("node-1").is_some());

    // Once the timer has run out the node stands for election.
    let step = election.start_election_loop(&state_manager, 1000);
    assert_eq!(step, ElectionStep::StartElection);
    let term = election.start_election(&mut state_manager, 1000);
    assert_eq!(term, 1);
    assert_eq!(election.start_election_loop(&state_manager, 1000), ElectionStep::RequestVotes);
}

#[test]
fn test_cluster_state_management() {
    let mut state_manager = ClusterStateManager::new("test-node".to_string());

    let node_info = NodeInfo::new("test-node".to_string(), "127.0.0.1:8080".to_string());

    state_manager.add_node(node_info);

    let state = state_manager.get_state();
    assert!(state.nodes.contains_key("test-node"));

    state_manager.remove_node("test-node");

    let state = state_manager.get_state();
    assert!(!state.nodes.contains_key("test-node"));
}

#[test]
fn test_wal_with_cluster() {
    let log_config = config::Config {
        segment: config::InitSegment {
            max_store_bytes: 1024,
            max_index_bytes: 1024,
            initial_offset: 0,
        },
    };

    let mut log = Log::new("/tmp/test_wal_cluster".to_string(), log_config, Vec::new()).unwrap();

    let mut record = Record::default();
    record.value = b"Test cluster WAL".to_vec();
    record.offset = 0;

    let offset = log.append(&mut record).unwrap();
    assert_eq!(offset, 0);

    let read_record = log.read(0).unwrap();
    assert_eq!(read_record.value, b"Test cluster WAL");
}

#[test]
fn test_cluster_config() {
    let mut config = ClusterConfig::new("test-node".to_string(), "127.0.0.1:8080".to_string());

    config.add_node("node-1".to_string(), "127.0.0.1:8080".to_string());
    config.add_node("node-2".to_string(), "127.0.0.1:8081".to_string());

    assert_eq!(config.nodes.len(), 2);
    assert!(config.nodes.contains_key("node-1"));
    assert!(config.nodes.contains_key("node-2"));

    assert_eq!(config.election_timeout(), 1000);
    assert_eq!(config.heartbeat_interval(), 100);
}
