use walrus::cluster::config::{randomized_timeout, ClusterConfig};
use walrus::cluster::discovery::DiscoveryManager;
use walrus::cluster::election::{
    ElectionRequest, ElectionResponse, ElectionStep, HeartbeatRequest, HeartbeatResponse,
    LeaderElection,
};
use walrus::cluster::state::{ClusterState, ClusterStateManager, NodeInfo, NodeRole};
use walrus::cluster::table::StringMap;

fn manager(own: &str, ids: &[&str]) -> ClusterStateManager {
    let mut state = ClusterStateManager::new(own.to_string());
    for (i, id) in ids.iter().enumerate() {
        state.add_node(NodeInfo::new(id.to_string(), format!("127.0.0.1:{}", 8080 + i)));
    }
    state
}

fn election(own: &str, now: u64) -> LeaderElection {
    LeaderElection::new(ClusterConfig::new(own.to_string(), "127.0.0.1:8080".to_string()), now)
}

fn vote_request(term: u64, candidate: &str, last_log_index: u64, last_log_term: u64) -> ElectionRequest {
    ElectionRequest { term, candidate_id: candidate.to_string(), last_log_index, last_log_term }
}

fn heartbeat(term: u64, leader: &str) -> HeartbeatRequest {
    HeartbeatRequest {
        term,
        leader_id: leader.to_string(),
        prev_log_index: 0,
        prev_log_term: 0,
        entries: Vec::new(),
        leader_commit: 0,
    }
}

fn role(state: &ClusterStateManager, id: &str) -> NodeRole {
    state.get_state().nodes.get(id).unwrap().role
}

#[test]
fn table_keeps_one_value_for_each_name() {
    let mut table: StringMap<u64> = StringMap::new();
    assert_eq!(table.len(), 0);
    assert_eq!(table.get("a"), None);
    table.insert("a".to_string(), 1);
    table.insert("b".to_string(), 2);
    table.insert("a".to_string(), 3);
    assert_eq!(table.len(), 2);
    assert_eq!(table.get("a"), Some(&3));
    assert_eq!(table.get("b"), Some(&2));
    assert_eq!(table.index_of("b"), Some(1));
    assert!(table.contains_key("a"));
    assert!(!table.contains_key("c"));
    table.set_value(1, 9);
    assert_eq!(table.get("b"), Some(&9));
    table.remove("a");
    assert_eq!(table.len(), 1);
    assert_eq!(table.get("a"), None);
    assert_eq!(table.get("b"), Some(&9));
    table.remove("zzz");
    assert_eq!(table.len(), 1);
}

#[test]
fn default_config() {
    let config = ClusterConfig::default();
    assert_eq!(config.bind_addr, "127.0.0.1:8080");
    assert_eq!(config.election_timeout_ms, 1000);
    assert_eq!(config.heartbeat_interval_ms, 100);
    assert_eq!(config.replication_timeout_ms, 5000);
    assert_eq!(config.replication_timeout(), 5000);
    assert_eq!(config.data_dir, "/tmp/walrus");
    assert_eq!(config.max_segment_bytes, 1024 * 1024);
    assert_eq!(config.max_index_bytes, 1024 * 1024);
    assert_eq!(config.nodes.len(), 0);
    assert!(!config.node_id.is_empty());
    assert_ne!(config.node_id, ClusterConfig::default().node_id);
    assert!(config.timing_valid());
    let mut slow = ClusterConfig::new("n".to_string(), "a".to_string());
    slow.heartbeat_interval_ms = 1000;
    assert!(!slow.timing_valid());
}

#[test]
fn config_copy_and_replaced_address() {
    let mut config = ClusterConfig::new("n".to_string(), "a".to_string());
    config.add_node("node-1".to_string(), "127.0.0.1:1".to_string());
    config.add_node("node-1".to_string(), "127.0.0.1:2".to_string());
    assert_eq!(config.nodes.len(), 1);
    assert_eq!(config.nodes.get("node-1"), Some(&"127.0.0.1:2".to_string()));
    let copy = config.copy();
    assert_eq!(copy.node_id, "n");
    assert_eq!(copy.bind_addr, "a");
    assert_eq!(copy.nodes.get("node-1"), Some(&"127.0.0.1:2".to_string()));
}

#[test]
fn election_timeout_is_spread_between_once_and_twice_the_base() {
    assert_eq!(randomized_timeout(1000, 0), 1000);
    assert_eq!(randomized_timeout(1000, 1000), 2000);
    assert_eq!(randomized_timeout(1000, 1001), 1000);
    assert_eq!(randomized_timeout(1000, 123_456), 1000 + 123_456 % 1001);
    assert_eq!(randomized_timeout(0, 99), 0);
    assert_eq!(randomized_timeout(u64::MAX, 5), u64::MAX);
    for sample in 0..5000u64 {
        let timeout = randomized_timeout(300, sample * 7919);
        assert!((300..=600).contains(&timeout));
    }
}

#[test]
fn new_node_is_an_alive_follower() {
    let node = NodeInfo::new("node-1".to_string(), "addr".to_string());
    assert_eq!(node.id, "node-1");
    assert_eq!(node.addr, "addr");
    assert_eq!(node.role, NodeRole::Follower);
    assert_eq!(node.term, 0);
    assert_eq!(node.last_heartbeat, None);
    assert!(node.is_alive);
    assert!(node.is_follower());
    assert!(!node.is_leader());
    assert!(!node.is_candidate());
    let copy = node.copy();
    assert_eq!(copy.id, "node-1");
}

#[test]
fn default_state_is_empty() {
    let state = ClusterState::default();
    assert_eq!(state.current_term, 0);
    assert_eq!(state.voted_for, None);
    assert_eq!(state.leader_id, None);
    assert_eq!(state.nodes.len(), 0);
    assert_eq!(state.commit_index, 0);
    assert_eq!(state.last_applied, 0);
}

#[test]
fn increment_term_clears_vote_and_leader() {
    let mut state = manager("node-1", &["node-1"]);
    state.set_leader("node-2".to_string());
    state.update_state(|s| {
        let mut next = s.clone();
        next.voted_for = Some("node-2".to_string());
        next.current_term = 4;
        next
    });
    assert_eq!(state.get_leader(), Some("node-2".to_string()));
    assert_eq!(state.increment_term(), 5);
    assert_eq!(state.get_state().current_term, 5);
    assert_eq!(state.get_state().voted_for, None);
    assert_eq!(state.get_leader(), None);
    assert_eq!(state.get_state().nodes.len(), 1);
}

#[test]
fn observe_term_steps_down_on_a_newer_term() {
    let mut state = manager("node-1", &["node-1", "node-2"]);
    state.set_role("node-1", NodeRole::Leader);
    state.set_role("node-2", NodeRole::Candidate);
    state.set_leader("node-1".to_string());
    assert!(!state.observe_term(0));
    assert_eq!(role(&state, "node-1"), NodeRole::Leader);
    assert!(state.is_leader());
    assert!(state.observe_term(3));
    assert_eq!(state.get_state().current_term, 3);
    assert_eq!(state.get_state().leader_id, None);
    assert_eq!(role(&state, "node-1"), NodeRole::Follower);
    assert_eq!(role(&state, "node-2"), NodeRole::Candidate);
    assert!(!state.is_leader());
    assert!(!state.observe_term(3));
    assert!(!state.observe_term(2));
    assert_eq!(state.get_state().current_term, 3);
}

#[test]
fn nodes_are_marked_alive_and_dead() {
    let mut state = manager("node-1", &["node-1", "node-2", "node-3"]);
    assert_eq!(state.get_alive_nodes(), vec!["node-1", "node-2", "node-3"]);
    state.mark_node_dead("node-2");
    state.mark_node_dead("unknown");
    assert_eq!(state.get_alive_nodes(), vec!["node-1", "node-3"]);
    state.update_heartbeat("node-2", 500);
    state.update_heartbeat("unknown", 500);
    assert_eq!(state.get_alive_nodes(), vec!["node-1", "node-2", "node-3"]);
    assert_eq!(state.get_state().nodes.get("node-2").unwrap().last_heartbeat, Some(500));
    assert_eq!(state.get_state().nodes.len(), 3);
}

#[test]
fn quorum_is_a_majority_of_the_alive_nodes() {
    let mut state = manager("node-1", &[]);
    assert_eq!(state.get_quorum_size(), 1);
    let ids = ["node-1", "node-2", "node-3", "node-4", "node-5"];
    let expected = [1, 2, 2, 3, 3];
    for (id, quorum) in ids.iter().zip(expected) {
        state.add_node(NodeInfo::new(id.to_string(), "addr".to_string()));
        assert_eq!(state.get_quorum_size(), quorum);
    }
    state.mark_node_dead("node-5");
    assert_eq!(state.get_quorum_size(), 3);
    state.mark_node_dead("node-4");
    assert_eq!(state.get_quorum_size(), 2);
}

#[test]
fn is_leader_compares_the_leader_with_the_node() {
    let mut state = manager("node-1", &["node-1"]);
    assert!(!state.is_leader());
    state.set_leader("node-2".to_string());
    assert!(!state.is_leader());
    state.set_leader("node-1".to_string());
    assert!(state.is_leader());
}

#[test]
fn election_loop_steps() {
    let mut state = manager("node-1", &[]);
    let election = election("node-1", 50);
    assert_eq!(election.start_election_loop(&state, 60), ElectionStep::Wait(100));
    state.add_node(NodeInfo::new("node-1".to_string(), "addr".to_string()));
    assert_eq!(election.start_election_loop(&state, 60), ElectionStep::Wait(10));
    assert_eq!(election.start_election_loop(&state, 1049), ElectionStep::Wait(10));
    assert_eq!(election.start_election_loop(&state, 1050), ElectionStep::StartElection);
    assert_eq!(election.start_election_loop(&state, 40), ElectionStep::Wait(10));
    assert!(!election.should_start_election(1049));
    assert!(election.should_start_election(1050));
    assert_eq!(election.run_follower_loop(2000), ElectionStep::StartElection);
    state.set_role("node-1", NodeRole::Candidate);
    assert_eq!(election.start_election_loop(&state, 60), ElectionStep::RequestVotes);
    state.set_role("node-1", NodeRole::Leader);
    assert_eq!(election.start_election_loop(&state, 60), ElectionStep::SendHeartbeats(100));
    assert_eq!(election.run_leader_loop(), ElectionStep::SendHeartbeats(100));
}

#[test]
fn start_election_votes_for_itself_in_a_new_term() {
    let mut state = manager("node-1", &["node-1", "node-2"]);
    state.set_leader("node-2".to_string());
    let mut election = election("node-1", 0);
    assert_eq!(election.start_election(&mut state, 1234), 1);
    assert_eq!(state.get_state().current_term, 1);
    assert_eq!(state.get_state().voted_for, Some("node-1".to_string()));
    assert_eq!(state.get_state().leader_id, None);
    assert_eq!(role(&state, "node-1"), NodeRole::Candidate);
    assert_eq!(role(&state, "node-2"), NodeRole::Follower);
    assert_eq!(election.election_timer, 1234);
    let request = election.request_votes(&state, 7);
    assert_eq!(request.term, 1);
    assert_eq!(request.candidate_id, "node-1");
    assert_eq!(request.last_log_index, 0);
    assert_eq!(request.last_log_term, 7);
}

#[test]
fn votes_are_counted_with_the_candidates_own() {
    let yes = ElectionResponse { term: 1, vote_granted: true };
    let no = ElectionResponse { term: 1, vote_granted: false };
    assert_eq!(LeaderElection::count_votes(&vec![]), 1);
    assert_eq!(LeaderElection::count_votes(&vec![no, no]), 1);
    assert_eq!(LeaderElection::count_votes(&vec![yes, no, yes]), 3);
}

#[test]
fn candidate_with_a_quorum_becomes_leader() {
    let mut state = manager("node-1", &["node-1", "node-2", "node-3"]);
    let mut election = election("node-1", 0);
    election.start_election(&mut state, 10);
    assert!(election.run_candidate_loop(&mut state, 2, 20));
    assert_eq!(role(&state, "node-1"), NodeRole::Leader);
    assert_eq!(state.get_leader(), Some("node-1".to_string()));
    assert!(state.is_leader());
    assert_eq!(election.election_timer, 10);
    assert_eq!(state.get_state().current_term, 1);
}

#[test]
fn candidate_without_a_quorum_becomes_follower() {
    let mut state = manager("node-1", &["node-1", "node-2", "node-3"]);
    let mut election = election("node-1", 0);
    election.start_election(&mut state, 10);
    assert!(!election.run_candidate_loop(&mut state, 1, 20));
    assert_eq!(role(&state, "node-1"), NodeRole::Follower);
    assert_eq!(state.get_leader(), None);
    assert_eq!(election.election_timer, 20);
    assert_eq!(state.get_state().voted_for, Some("node-1".to_string()));
}

#[test]
fn vote_request_of_an_older_term_is_refused() {
    let mut state = manager("node-1", &["node-1"]);
    state.observe_term(5);
    let election = election("node-1", 0);
    let response = election.handle_vote_request(&mut state, vote_request(4, "node-2", 9, 9), 0);
    assert_eq!(response, ElectionResponse { term: 5, vote_granted: false });
    assert_eq!(state.get_state().current_term, 5);
    assert_eq!(state.get_state().voted_for, None);
}

#[test]
fn vote_is_granted_once_in_a_term() {
    let mut state = manager("node-1", &["node-1"]);
    let election = election("node-1", 0);
    let first = election.handle_vote_request(&mut state, vote_request(1, "node-2", 0, 0), 0);
    assert_eq!(first, ElectionResponse { term: 1, vote_granted: true });
    assert_eq!(state.get_state().voted_for, Some("node-2".to_string()));
    let other = election.handle_vote_request(&mut state, vote_request(1, "node-3", 0, 0), 0);
    assert_eq!(other, ElectionResponse { term: 1, vote_granted: false });
    assert_eq!(state.get_state().voted_for, Some("node-2".to_string()));
    let again = election.handle_vote_request(&mut state, vote_request(1, "node-2", 0, 0), 0);
    assert_eq!(again, ElectionResponse { term: 1, vote_granted: true });
    // A newer term clears the vote.
    let next = election.handle_vote_request(&mut state, vote_request(2, "node-3", 0, 0), 0);
    assert_eq!(next, ElectionResponse { term: 2, vote_granted: true });
    assert_eq!(state.get_state().voted_for, Some("node-3".to_string()));
    assert_eq!(state.get_state().current_term, 2);
}

#[test]
fn vote_is_refused_to_a_candidate_whose_log_is_behind() {
    let election = election("node-1", 0);
    // The node's log ends with an entry of term 3 at index 5.
    let cases = [
        (vote_request(4, "node-2", 9, 2), false),
        (vote_request(4, "node-2", 4, 3), false),
        (vote_request(4, "node-2", 5, 3), true),
        (vote_request(4, "node-2", 6, 3), true),
        (vote_request(4, "node-2", 0, 4), true),
    ];
    for (request, granted) in cases {
        let mut state = manager("node-1", &["node-1"]);
        state.set_role("node-1", NodeRole::Leader);
        state.set_leader("node-1".to_string());
        state.update_state(|s| {
            let mut next = s.clone();
            next.last_applied = 5;
            next.current_term = 3;
            next
        });
        let response = election.handle_vote_request(&mut state, request, 3);
        assert_eq!(response, ElectionResponse { term: 4, vote_granted: granted });
        // The newer term is taken over whether the vote is granted or not.
        assert_eq!(state.get_state().current_term, 4);
        assert_eq!(state.get_state().leader_id, None);
        assert_eq!(role(&state, "node-1"), NodeRole::Follower);
        assert_eq!(state.get_state().voted_for.is_some(), granted);
    }
}

#[test]
fn heartbeat_of_an_older_term_is_refused() {
    let mut state = manager("node-1", &["node-1"]);
    state.observe_term(5);
    let mut election = election("node-1", 0);
    let response = election.handle_heartbeat(&mut state, heartbeat(4, "node-2"), 700);
    assert_eq!(response, HeartbeatResponse { term: 5, success: false, match_index: 0 });
    assert_eq!(state.get_leader(), None);
    assert_eq!(election.election_timer, 0);
}

#[test]
fn heartbeat_sets_the_leader_and_resets_the_timer() {
    let mut state = manager("node-1", &["node-1"]);
    let mut election = election("node-1", 0);
    election.start_election(&mut state, 5);
    assert_eq!(state.get_state().voted_for, Some("node-1".to_string()));
    // Of the same term: the vote stays.
    let response = election.handle_heartbeat(&mut state, heartbeat(1, "node-2"), 700);
    assert_eq!(response, HeartbeatResponse { term: 1, success: true, match_index: 0 });
    assert_eq!(state.get_leader(), Some("node-2".to_string()));
    assert_eq!(state.get_state().voted_for, Some("node-1".to_string()));
    assert_eq!(election.election_timer, 700);
    assert!(!election.should_start_election(1699));
    assert!(election.should_start_election(1700));
    // Of a newer term: the vote is cleared.
    let response = election.handle_heartbeat(&mut state, heartbeat(3, "node-3"), 900);
    assert_eq!(response, HeartbeatResponse { term: 3, success: true, match_index: 0 });
    assert_eq!(state.get_state().current_term, 3);
    assert_eq!(state.get_state().voted_for, None);
    assert_eq!(state.get_leader(), Some("node-3".to_string()));
    assert_eq!(role(&state, "node-1"), NodeRole::Follower);
}

#[test]
fn leader_heartbeats() {
    let mut state = manager("node-1", &["node-1", "node-2"]);
    let mut election = election("node-1", 0);
    election.start_election(&mut state, 5);
    election.run_candidate_loop(&mut state, 2, 6);
    let request = election.send_heartbeats(&state, 0, 100);
    assert_eq!(request.term, 1);
    assert_eq!(request.leader_id, "node-1");
    assert_eq!(request.prev_log_index, 0);
    assert!(request.entries.is_empty());
    assert_eq!(request.leader_commit, 0);
    assert_eq!(election.last_heartbeat, 100);
    state.mark_node_dead("node-2");
    let ok = HeartbeatResponse { term: 1, success: true, match_index: 0 };
    assert!(election.send_heartbeat(&mut state, "node-2", ok, 150));
    let node = state.get_state().nodes.get("node-2").unwrap();
    assert!(node.is_alive);
    assert_eq!(node.last_heartbeat, Some(150));
    let refused = HeartbeatResponse { term: 1, success: false, match_index: 0 };
    assert!(election.send_heartbeat(&mut state, "node-2", refused, 170));
    assert_eq!(state.get_state().nodes.get("node-2").unwrap().last_heartbeat, Some(150));
    // An answer of a newer term: the leader steps down.
    let newer = HeartbeatResponse { term: 2, success: false, match_index: 0 };
    assert!(!election.send_heartbeat(&mut state, "node-2", newer, 200));
    assert_eq!(state.get_state().current_term, 2);
    assert_eq!(role(&state, "node-1"), NodeRole::Follower);
    assert!(!state.is_leader());
    assert_eq!(election.election_timer, 200);
}

#[test]
fn discovery_registers_and_forgets_nodes() {
    let mut state = ClusterStateManager::new("node-1".to_string());
    let mut discovery =
        DiscoveryManager::new(ClusterConfig::new("node-1".to_string(), "127.0.0.1:1".to_string()));
    discovery.start_discovery(&mut state);
    assert_eq!(discovery.known_nodes.get("node-1"), Some(&"127.0.0.1:1".to_string()));
    assert_eq!(discovery.get_node_info(&state, "node-1").unwrap().addr, "127.0.0.1:1");
    discovery.register_node(&mut state, "node-2", "127.0.0.1:2".to_string());
    assert_eq!(discovery.get_cluster_nodes(&state).len(), 2);
    assert_eq!(discovery.get_alive_nodes(&state), vec!["node-1", "node-2"]);
    assert!(discovery.is_node_alive(&state, "node-2"));
    assert!(!discovery.is_node_alive(&state, "node-3"));
    assert!(discovery.get_node_info(&state, "node-3").is_none());
    discovery.unregister_node(&mut state, "node-2");
    assert!(!discovery.is_node_alive(&state, "node-2"));
    assert_eq!(discovery.known_nodes.len(), 1);
    assert_eq!(state.get_state().nodes.len(), 1);
}

#[test]
fn discovery_registers_a_peer_that_answers() {
    let mut state = ClusterStateManager::new("node-1".to_string());
    let discovery =
        DiscoveryManager::new(ClusterConfig::new("node-1".to_string(), "127.0.0.1:1".to_string()));
    discovery.discover_nodes(&mut state, "node-2", "127.0.0.1:2", false);
    assert_eq!(state.get_state().nodes.len(), 0);
    discovery.discover_nodes(&mut state, "node-1", "127.0.0.1:1", true);
    assert_eq!(state.get_state().nodes.len(), 0);
    discovery.discover_nodes(&mut state, "node-2", "127.0.0.1:2", true);
    let node = discovery.get_node_info(&state, "node-2").unwrap();
    assert_eq!(node.addr, "127.0.0.1:2");
    assert_eq!(node.role, NodeRole::Follower);
    // A node that is known stays as it is.
    state.set_role("node-2", NodeRole::Leader);
    discovery.discover_nodes(&mut state, "node-2", "127.0.0.1:9", true);
    discovery.ensure_node_registered(&mut state, "node-2", "127.0.0.1:9");
    let node = discovery.get_node_info(&state, "node-2").unwrap();
    assert_eq!(node.addr, "127.0.0.1:2");
    assert_eq!(node.role, NodeRole::Leader);
}

#[test]
fn discovery_marks_silent_nodes_as_dead() {
    let mut state = manager("node-1", &["node-1", "node-2", "node-3", "node-4"]);
    let discovery =
        DiscoveryManager::new(ClusterConfig::new("node-1".to_string(), "127.0.0.1:1".to_string()));
    discovery.update_node_heartbeat(&mut state, "node-1", 0);
    discovery.update_node_heartbeat(&mut state, "node-2", 1000);
    discovery.update_node_heartbeat(&mut state, "node-3", 1001);
    // Three election timeouts of 1000 ms after the heartbeat at 1000: not
    // yet more than that.
    discovery.check_node_health(&mut state, 4000);
    assert_eq!(state.get_alive_nodes(), vec!["node-1", "node-2", "node-3", "node-4"]);
    discovery.check_node_health(&mut state, 4001);
    // The node itself and a node that was never heard of stay alive.
    assert_eq!(state.get_alive_nodes(), vec!["node-1", "node-3", "node-4"]);
    discovery.check_node_health(&mut state, 500);
    assert_eq!(state.get_alive_nodes(), vec!["node-1", "node-3", "node-4"]);
    discovery.check_node_health(&mut state, u64::MAX);
    assert_eq!(state.get_alive_nodes(), vec!["node-1", "node-4"]);
    assert_eq!(state.get_state().nodes.get("node-2").unwrap().last_heartbeat, Some(1000));
}

#[test]
fn newest_term_among_the_answers() {
    let answer = |term: u64| ElectionResponse { term, vote_granted: false };
    assert_eq!(LeaderElection::newest_answer(&vec![]), 0);
    assert_eq!(LeaderElection::newest_answer(&vec![answer(3)]), 3);
    assert_eq!(LeaderElection::newest_answer(&vec![answer(3), answer(7), answer(5)]), 7);
}

#[test]
fn election_is_concluded_on_the_answers() {
    let yes = ElectionResponse { term: 1, vote_granted: true };
    let no = ElectionResponse { term: 1, vote_granted: false };
    // One vote of two peers is a quorum of three with the candidate's own.
    let mut state = manager("node-1", &["node-1", "node-2", "node-3"]);
    let mut won = election("node-1", 0);
    won.start_election(&mut state, 10);
    assert!(won.conclude_election(&mut state, &vec![no, yes], 20));
    assert_eq!(role(&state, "node-1"), NodeRole::Leader);
    assert!(state.is_leader());
    assert_eq!(won.election_timer, 10);
    // No vote: a follower again.
    let mut state = manager("node-1", &["node-1", "node-2", "node-3"]);
    let mut lost = election("node-1", 0);
    lost.start_election(&mut state, 10);
    assert!(!lost.conclude_election(&mut state, &vec![no, no], 20));
    assert_eq!(role(&state, "node-1"), NodeRole::Follower);
    assert_eq!(state.get_state().current_term, 1);
    assert_eq!(state.get_state().voted_for, Some("node-1".to_string()));
    assert_eq!(lost.election_timer, 20);
    // An answer of a newer term ends the candidacy, whatever the votes.
    let newer = ElectionResponse { term: 4, vote_granted: false };
    let mut state = manager("node-1", &["node-1", "node-2", "node-3"]);
    let mut ended = election("node-1", 0);
    ended.start_election(&mut state, 10);
    assert!(!ended.conclude_election(&mut state, &vec![yes, yes, newer], 30));
    assert_eq!(role(&state, "node-1"), NodeRole::Follower);
    assert_eq!(state.get_state().current_term, 4);
    assert_eq!(state.get_state().voted_for, None);
    assert_eq!(state.get_leader(), None);
    assert_eq!(ended.election_timer, 30);
}
