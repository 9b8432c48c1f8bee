use walrus::cluster::config::ClusterConfig;
use walrus::cluster::election::{ElectionResponse, LeaderElection};
use walrus::cluster::replication::{
    LogEntry, ReplicationError, ReplicationManager, ReplicationRequest, ReplicationResponse,
};
use walrus::cluster::state::{ClusterStateManager, NodeInfo, NodeRole};
use walrus::log::config::{Config, InitSegment};
use walrus::log::error::LogError;
use walrus::log::log::Log;
use walrus::server::service::{WalService, WriteStep};

const IDS: [&str; 3] = ["node-1", "node-2", "node-3"];

struct Node {
    log: Log,
    state: ClusterStateManager,
    replication: ReplicationManager,
    election: LeaderElection,
}

fn config(id: &str) -> ClusterConfig {
    ClusterConfig::new(id.to_string(), "127.0.0.1:8080".to_string())
}

fn log_with(max_store_bytes: u64, max_index_bytes: u64) -> Log {
    let config = Config { segment: InitSegment { max_store_bytes, max_index_bytes, initial_offset: 0 } };
    Log::new("data".to_string(), config, Vec::new()).unwrap()
}

fn node(id: &str) -> Node {
    let mut state = ClusterStateManager::new(id.to_string());
    for (i, peer) in IDS.iter().enumerate() {
        state.add_node(NodeInfo::new(peer.to_string(), format!("127.0.0.1:{}", 8080 + i)));
    }
    Node {
        log: log_with(64, 48),
        state,
        replication: ReplicationManager::new(config(id)),
        election: LeaderElection::new(config(id), 0),
    }
}

fn leader(id: &str, term: u64) -> Node {
    let mut node = node(id);
    node.state.observe_term(term);
    node.state.set_leader(id.to_string());
    node.state.set_role(id, NodeRole::Leader);
    node.replication.reset_peers(&node.state);
    node
}

fn entry(term: u64, index: u64, command: &str) -> LogEntry {
    LogEntry { term, index, command: command.as_bytes().to_vec() }
}

fn request(term: u64, prev: (u64, u64), entries: Vec<LogEntry>, leader_commit: u64) -> ReplicationRequest {
    ReplicationRequest {
        term,
        leader_id: "node-1".to_string(),
        prev_log_index: prev.0,
        prev_log_term: prev.1,
        entries,
        leader_commit,
    }
}

fn handle(node: &mut Node, request: ReplicationRequest) -> ReplicationResponse {
    node.replication.handle_replication_request(&mut node.state, &mut node.log, request)
}

fn commands(node: &Node) -> Vec<String> {
    (node.log.first_offset()..node.log.next_offset())
        .map(|offset| String::from_utf8(node.log.read(offset).unwrap().value).unwrap())
        .collect()
}

fn ok(term: u64, match_index: u64) -> ReplicationResponse {
    ReplicationResponse { term, success: true, match_index }
}

fn refused(term: u64) -> ReplicationResponse {
    ReplicationResponse { term, success: false, match_index: 0 }
}

/// Sends to `follower` what `leader` has for it and hands the answer back.
fn replicate(leader: &mut Node, follower: &mut Node) -> bool {
    let id = follower.state.node_id.clone();
    let request = leader.replication.replication_request(&leader.state, &leader.log, &id);
    let (prev, sent) = (request.prev_log_index, request.entries.len());
    let response = handle(follower, request);
    leader.replication.replicate_to_node(&mut leader.state, &id, prev, sent, response)
}

#[test]
fn follower_appends_the_entries_of_its_leader() {
    let mut follower = node("node-2");
    let response = handle(
        &mut follower,
        request(1, (0, 0), vec![entry(1, 1, "a"), entry(1, 2, "b")], 1),
    );
    assert_eq!(response, ok(1, 2));
    assert_eq!(commands(&follower), vec!["a", "b"]);
    assert_eq!(follower.replication.terms, vec![1, 1]);
    assert_eq!(follower.state.get_state().last_applied, 2);
    assert_eq!(follower.state.get_state().commit_index, 1);
    assert_eq!(follower.state.get_state().current_term, 1);
    assert_eq!(follower.replication.last_log_term(), 1);
    let response = handle(&mut follower, request(2, (2, 1), vec![entry(2, 3, "c")], 9));
    assert_eq!(response, ok(2, 3));
    assert_eq!(commands(&follower), vec!["a", "b", "c"]);
    assert_eq!(follower.state.get_state().commit_index, 3);
    assert_eq!(follower.replication.get_commit_index(&follower.state), 3);
    assert_eq!(follower.replication.get_last_applied(&follower.state), 3);
    assert_eq!(follower.replication.last_log_term(), 2);
}

#[test]
fn follower_refuses_a_request_of_an_older_term() {
    let mut follower = node("node-2");
    follower.state.observe_term(3);
    let response = handle(&mut follower, request(2, (0, 0), vec![entry(2, 1, "a")], 1));
    assert_eq!(response, refused(3));
    assert!(commands(&follower).is_empty());
    assert_eq!(follower.state.get_state().commit_index, 0);
}

#[test]
fn follower_refuses_a_request_that_does_not_match_its_log() {
    let mut follower = node("node-2");
    handle(&mut follower, request(1, (0, 0), vec![entry(1, 1, "a")], 0));
    // The log has no entry at index 2.
    assert_eq!(handle(&mut follower, request(1, (2, 1), vec![entry(1, 3, "c")], 0)), refused(1));
    // The entry at index 1 is of term 1.
    assert_eq!(handle(&mut follower, request(4, (1, 2), vec![entry(4, 2, "b")], 0)), refused(4));
    assert_eq!(commands(&follower), vec!["a"]);
    // The newer term was taken over all the same.
    assert_eq!(follower.state.get_state().current_term, 4);
    // The last index would not fit.
    assert_eq!(
        handle(&mut follower, request(4, (u64::MAX, 1), vec![entry(4, 2, "b")], 0)),
        refused(4)
    );
}

#[test]
fn replaying_a_request_changes_nothing() {
    let mut follower = node("node-2");
    handle(&mut follower, request(1, (0, 0), vec![entry(1, 1, "a")], 0));
    let again = || request(1, (1, 1), vec![entry(1, 2, "b"), entry(1, 3, "c")], 2);
    let first = handle(&mut follower, again());
    assert_eq!(first, ok(1, 3));
    let files = follower.log.files();
    for _ in 0..3 {
        assert_eq!(handle(&mut follower, again()), first);
        assert_eq!(commands(&follower), vec!["a", "b", "c"]);
        assert_eq!(follower.replication.terms, vec![1, 1, 1]);
        assert_eq!(follower.state.get_state().last_applied, 3);
        assert_eq!(follower.state.get_state().commit_index, 2);
        let now = follower.log.files();
        assert_eq!(now.len(), files.len());
        for (a, b) in now.iter().zip(files.iter()) {
            assert_eq!(a.name, b.name);
            assert_eq!(a.data, b.data);
        }
    }
    // An older request that the log holds already drops nothing.
    assert_eq!(handle(&mut follower, request(1, (0, 0), vec![entry(1, 1, "a")], 0)), ok(1, 1));
    assert_eq!(commands(&follower), vec!["a", "b", "c"]);
}

#[test]
fn follower_drops_entries_in_conflict_with_its_leader() {
    let mut follower = node("node-2");
    let old = vec![entry(1, 1, "a"), entry(1, 2, "b"), entry(1, 3, "c"), entry(1, 4, "d")];
    assert_eq!(handle(&mut follower, request(1, (0, 0), old, 0)), ok(1, 4));
    // A new leader holds other entries from index 3 on.
    let response = handle(
        &mut follower,
        request(2, (1, 1), vec![entry(1, 2, "b"), entry(2, 3, "x")], 0),
    );
    assert_eq!(response, ok(2, 3));
    assert_eq!(commands(&follower), vec!["a", "b", "x"]);
    assert_eq!(follower.replication.terms, vec![1, 1, 2]);
    assert_eq!(follower.state.get_state().last_applied, 3);
    assert_eq!(follower.log.read(3).unwrap_err(), LogError::NotFound);
}

#[test]
fn follower_commit_index_follows_the_leader_within_its_log() {
    let mut follower = node("node-2");
    handle(&mut follower, request(1, (0, 0), vec![entry(1, 1, "a"), entry(1, 2, "b")], 5));
    assert_eq!(follower.state.get_state().commit_index, 2);
    // The commit index is what the leader has committed, within the log.
    handle(&mut follower, request(1, (2, 1), vec![], 1));
    assert_eq!(follower.state.get_state().commit_index, 1);
    handle(&mut follower, request(1, (2, 1), vec![], 2));
    assert_eq!(follower.state.get_state().commit_index, 2);
}

#[test]
fn follower_whose_log_takes_no_entry_refuses() {
    // An index map of five bytes takes no entry.
    let mut stuck = node("node-3");
    stuck.log = log_with(1 << 20, 5);
    let response =
        handle(&mut stuck, request(1, (0, 0), vec![entry(1, 1, "a"), entry(1, 2, "b")], 2));
    assert_eq!(response, refused(1));
    assert!(commands(&stuck).is_empty());
    assert_eq!(stuck.state.get_state().last_applied, 0);
    assert_eq!(stuck.state.get_state().commit_index, 0);
    assert_eq!(stuck.state.get_state().current_term, 1);
}

#[test]
fn follower_appends_across_segments() {
    let mut follower = node("node-2");
    follower.log = log_with(1 << 20, 24);
    let entries: Vec<LogEntry> =
        (1..=7u64).map(|i| entry(1, i, &format!("command {}", i))).collect();
    assert_eq!(handle(&mut follower, request(1, (0, 0), entries, 7)), ok(1, 7));
    assert_eq!(follower.log.segments.len(), 3);
    assert_eq!(commands(&follower).len(), 7);
    // A conflict in an earlier segment drops the segments after it.
    let response = handle(&mut follower, request(2, (2, 1), vec![entry(2, 3, "other")], 0));
    assert_eq!(response, ok(2, 3));
    assert_eq!(commands(&follower), vec!["command 1", "command 2", "other"]);
    assert_eq!(follower.replication.terms, vec![1, 1, 2]);
    assert_eq!(follower.log.segments.len(), 1);
}

#[test]
fn only_the_leader_appends() {
    let mut follower = node("node-2");
    let r = follower.replication.append_entry(&mut follower.state, &mut follower.log, b"x".to_vec());
    assert_eq!(r.unwrap_err(), ReplicationError::NotLeader);
    assert!(commands(&follower).is_empty());
    let mut leader = leader("node-1", 3);
    let r = leader.replication.append_entry(&mut leader.state, &mut leader.log, b"x".to_vec());
    assert_eq!(r.unwrap(), 0);
    let r = leader.replication.append_entry(&mut leader.state, &mut leader.log, b"y".to_vec());
    assert_eq!(r.unwrap(), 1);
    assert_eq!(commands(&leader), vec!["x", "y"]);
    assert_eq!(leader.replication.terms, vec![3, 3]);
    assert_eq!(leader.state.get_state().last_applied, 2);
    assert_eq!(leader.replication.read_entry(&leader.log, 1), Some(b"y".to_vec()));
    assert_eq!(leader.replication.read_entry(&leader.log, 2), None);
}

#[test]
fn leader_that_cannot_store_refuses() {
    let mut leader = leader("node-1", 1);
    leader.log = log_with(1 << 20, 5);
    let r = leader.replication.append_entry(&mut leader.state, &mut leader.log, b"x".to_vec());
    assert_eq!(r.unwrap_err(), ReplicationError::Storage(LogError::SegmentFull));
    assert_eq!(leader.state.get_state().last_applied, 0);
    assert!(leader.replication.terms.is_empty());
}

#[test]
fn request_for_a_peer_holds_what_the_peer_lacks() {
    let mut leader = leader("node-1", 2);
    for command in ["a", "b", "c"] {
        leader.replication.append_entry(&mut leader.state, &mut leader.log, command.into()).unwrap();
    }
    leader.state.update_state(|s| {
        let mut next = s.clone();
        next.commit_index = 2;
        next
    });
    // Nothing is noted of this peer: it is taken to hold everything.
    let request = leader.replication.replication_request(&leader.state, &leader.log, "node-9");
    assert_eq!(request.term, 2);
    assert_eq!(request.leader_id, "node-1");
    assert_eq!((request.prev_log_index, request.prev_log_term), (3, 2));
    assert!(request.entries.is_empty());
    assert_eq!(request.leader_commit, 2);
    // The peer refuses: the next index goes back by one.
    assert!(!leader.replication.replicate_to_node(&mut leader.state, "node-9", 3, 0, refused(2)));
    assert_eq!(leader.replication.next_index.get("node-9"), Some(&3));
    let request = leader.replication.replication_request(&leader.state, &leader.log, "node-9");
    assert_eq!((request.prev_log_index, request.prev_log_term), (2, 2));
    assert_eq!(request.entries.len(), 1);
    assert_eq!(request.entries[0].index, 3);
    assert_eq!(request.entries[0].term, 2);
    assert_eq!(request.entries[0].command, b"c");
    for _ in 0..5 {
        leader.replication.replicate_to_node(&mut leader.state, "node-9", 0, 0, refused(2));
    }
    assert_eq!(leader.replication.next_index.get("node-9"), Some(&1));
    // A peer that was known when the node became the leader is sent all
    // that was appended since.
    assert_eq!(leader.replication.next_index.get("node-2"), Some(&1));
    let request = leader.replication.replication_request(&leader.state, &leader.log, "node-2");
    assert_eq!((request.prev_log_index, request.prev_log_term), (0, 0));
    let sent: Vec<(u64, Vec<u8>)> =
        request.entries.iter().map(|e| (e.index, e.command.clone())).collect();
    assert_eq!(sent, vec![(1, b"a".to_vec()), (2, b"b".to_vec()), (3, b"c".to_vec())]);
}

#[test]
fn answers_move_the_indices_of_a_peer() {
    let mut leader = leader("node-1", 2);
    assert!(leader.replication.replicate_to_node(&mut leader.state, "node-2", 4, 3, ok(2, 7)));
    assert_eq!(leader.replication.match_index.get("node-2"), Some(&7));
    assert_eq!(leader.replication.next_index.get("node-2"), Some(&8));
    assert!(!leader.replication.replicate_to_node(&mut leader.state, "node-2", 7, 1, refused(2)));
    assert_eq!(leader.replication.match_index.get("node-2"), Some(&7));
    assert_eq!(leader.replication.next_index.get("node-2"), Some(&7));
    // An answer of a newer term: the leader steps down and notes nothing.
    assert!(!leader.replication.replicate_to_node(&mut leader.state, "node-3", 0, 5, ok(3, 5)));
    assert_eq!(leader.replication.match_index.get("node-3"), Some(&0));
    assert_eq!(leader.replication.next_index.get("node-3"), Some(&1));
    assert_eq!(leader.state.get_state().current_term, 3);
    assert!(!leader.state.is_leader());
    assert_eq!(leader.replication.accepted, 1);
    assert_eq!(
        leader.replication.replicate_to_followers(&mut leader.state).unwrap_err(),
        ReplicationError::NotLeader
    );
    assert_eq!(leader.replication.accepted, 1);
    leader.replication.reset_peers(&leader.state);
    assert_eq!(leader.replication.match_index.len(), 2);
    assert_eq!(leader.replication.match_index.get("node-2"), Some(&0));
    assert_eq!(leader.replication.match_index.get("node-3"), Some(&0));
    assert_eq!(leader.replication.match_index.get("node-1"), None);
    assert_eq!(leader.replication.next_index.get("node-2"), Some(&1));
    assert_eq!(leader.replication.next_index.get("node-3"), Some(&1));
}

#[test]
fn commit_index_moves_to_what_a_quorum_holds() {
    let mut leader = leader("node-1", 2);
    for command in ["a", "b", "c", "d"] {
        leader.replication.append_entry(&mut leader.state, &mut leader.log, command.into()).unwrap();
    }
    assert_eq!(leader.replication.update_commit_index(&mut leader.state), 0);
    leader.replication.replicate_to_node(&mut leader.state, "node-2", 0, 3, ok(2, 3));
    assert_eq!(leader.replication.count_acked(3), 1);
    assert_eq!(leader.replication.count_acked(4), 0);
    assert_eq!(leader.replication.update_commit_index(&mut leader.state), 3);
    assert_eq!(leader.state.get_state().commit_index, 3);
    assert!(leader.replication.is_committed(&leader.state, 3));
    assert!(!leader.replication.is_committed(&leader.state, 4));
    leader.replication.replicate_to_node(&mut leader.state, "node-3", 0, 2, ok(2, 2));
    assert_eq!(leader.replication.update_commit_index(&mut leader.state), 3);
    // The leader's own answers are not counted twice.
    leader.replication.replicate_to_node(&mut leader.state, "node-1", 0, 4, ok(2, 4));
    assert_eq!(leader.replication.update_commit_index(&mut leader.state), 3);
    leader.replication.replicate_to_node(&mut leader.state, "node-3", 2, 2, ok(2, 4));
    assert_eq!(leader.replication.update_commit_index(&mut leader.state), 4);
}

#[test]
fn entries_of_an_older_term_are_not_committed_by_counting() {
    let mut leader = leader("node-1", 1);
    leader.replication.append_entry(&mut leader.state, &mut leader.log, b"old".to_vec()).unwrap();
    leader.state.observe_term(2);
    leader.state.set_leader("node-1".to_string());
    leader.replication.replicate_to_node(&mut leader.state, "node-2", 0, 1, ok(2, 1));
    assert_eq!(leader.replication.update_commit_index(&mut leader.state), 0);
    leader.replication.append_entry(&mut leader.state, &mut leader.log, b"new".to_vec()).unwrap();
    leader.replication.replicate_to_node(&mut leader.state, "node-2", 1, 1, ok(2, 2));
    assert_eq!(leader.replication.update_commit_index(&mut leader.state), 2);
}

#[test]
fn a_round_with_a_quorum_commits() {
    let mut leader = leader("node-1", 1);
    leader.replication.append_entry(&mut leader.state, &mut leader.log, b"a".to_vec()).unwrap();
    assert_eq!(leader.replication.replicate_to_followers(&mut leader.state), Ok(false));
    assert_eq!(leader.state.get_state().commit_index, 0);
    leader.replication.replicate_to_node(&mut leader.state, "node-2", 0, 1, ok(1, 1));
    assert_eq!(leader.replication.accepted, 1);
    assert_eq!(leader.replication.replicate_to_followers(&mut leader.state), Ok(true));
    assert_eq!(leader.replication.accepted, 0);
    assert_eq!(leader.state.get_state().commit_index, 1);
}

#[test]
fn quorum_write() {
    let mut leader = leader("node-1", 1);
    let mut second = node("node-2");
    let mut third = node("node-3");

    // The write is stored at offset 0 and is committed once one of the two
    // followers holds it.
    let offset =
        leader.replication.append_entry(&mut leader.state, &mut leader.log, b"x".to_vec()).unwrap();
    assert_eq!(offset, 0);
    assert!(!leader.replication.is_committed(&leader.state, 1));
    assert!(replicate(&mut leader, &mut second));
    assert_eq!(leader.replication.replicate_to_followers(&mut leader.state), Ok(true));
    assert!(leader.replication.is_committed(&leader.state, 1));
    assert_eq!(second.state.get_state().last_applied, 1);
    assert_eq!(second.replication.terms, vec![1]);
    assert_eq!(commands(&second), vec!["x"]);
    replicate(&mut leader, &mut third);
    assert_eq!(leader.replication.replicate_to_followers(&mut leader.state), Ok(true));
    assert_eq!(commands(&third), vec!["x"]);

    // Without the third node a write is still committed.
    leader.replication.append_entry(&mut leader.state, &mut leader.log, b"y".to_vec()).unwrap();
    assert!(replicate(&mut leader, &mut second));
    assert_eq!(leader.replication.replicate_to_followers(&mut leader.state), Ok(true));
    assert!(leader.replication.is_committed(&leader.state, 2));

    // Without both, a write is stored and not committed, as long as the
    // leader counts the two among the alive nodes.
    let offset =
        leader.replication.append_entry(&mut leader.state, &mut leader.log, b"z".to_vec()).unwrap();
    assert_eq!(offset, 2);
    assert_eq!(leader.replication.replicate_to_followers(&mut leader.state), Ok(false));
    assert!(!leader.replication.is_committed(&leader.state, 3));
    assert_eq!(leader.state.get_state().commit_index, 2);

    // A node returns: the write is committed, and the follower knows of the
    // commit with the next request.
    assert!(replicate(&mut leader, &mut second));
    assert_eq!(leader.replication.replicate_to_followers(&mut leader.state), Ok(true));
    assert!(leader.replication.is_committed(&leader.state, 3));
    assert_eq!(commands(&second), vec!["x", "y", "z"]);
    assert_eq!(second.state.get_state().commit_index, 2);
    replicate(&mut leader, &mut second);
    assert_eq!(second.state.get_state().commit_index, 3);
    // The third node catches up with what it missed.
    assert!(replicate(&mut leader, &mut third));
    assert_eq!(leader.replication.replicate_to_followers(&mut leader.state), Ok(true));
    assert_eq!(leader.state.get_state().commit_index, 3);
    assert_eq!(commands(&third), vec!["x", "y", "z"]);
}

#[test]
fn leader_failover() {
    let mut first = leader("node-1", 1);
    let mut second = node("node-2");
    let mut third = node("node-3");
    for command in ["a", "b"] {
        first.replication.append_entry(&mut first.state, &mut first.log, command.into()).unwrap();
        assert!(replicate(&mut first, &mut second));
        assert!(replicate(&mut first, &mut third));
        assert_eq!(first.replication.accepted, 2);
        assert_eq!(first.replication.replicate_to_followers(&mut first.state), Ok(true));
    }
    let committed = first.state.get_state().commit_index;
    assert_eq!(committed, 2);

    // The leader is gone. The election timer of the second node runs out.
    assert!(second.election.should_start_election(1000));
    let term = second.election.start_election(&mut second.state, 1000);
    assert_eq!(term, 2);
    let ask = second.election.request_votes(&second.state, second.replication.last_log_term());
    let vote: ElectionResponse =
        third.election.handle_vote_request(&mut third.state, ask, third.replication.last_log_term());
    assert!(vote.vote_granted);
    assert!(second.election.conclude_election(&mut second.state, &vec![vote], 1001));
    second.replication.reset_peers(&second.state);
    assert!(second.state.is_leader());
    assert!(second.state.get_state().last_applied >= committed);

    // Writes go on behind what was committed.
    let offset =
        second.replication.append_entry(&mut second.state, &mut second.log, b"c".to_vec()).unwrap();
    assert_eq!(offset, committed);
    assert_eq!(second.state.get_state().last_applied, committed + 1);
    assert!(replicate(&mut second, &mut third));
    assert_eq!(second.replication.replicate_to_followers(&mut second.state), Ok(true));
    assert_eq!(second.state.get_state().commit_index, 3);
    assert_eq!(commands(&third), vec!["a", "b", "c"]);
    assert_eq!(third.replication.terms, vec![1, 1, 2]);

    // The old leader returns and steps down on the first answer it gets.
    let request = first.replication.replication_request(&first.state, &first.log, "node-3");
    let (prev, sent) = (request.prev_log_index, request.entries.len());
    let response = handle(&mut third, request);
    assert_eq!(response, refused(2));
    assert!(!first.replication.replicate_to_node(&mut first.state, "node-3", prev, sent, response));
    assert!(!first.state.is_leader());
    assert_eq!(first.state.get_state().current_term, 2);
}

#[test]
fn service_writes_on_the_leader_and_reads_everywhere() {
    let state = ClusterStateManager::new("node-1".to_string());
    let mut service = WalService::new(log_with(1024, 1024), state, config("node-1"), 0);
    service.start();
    assert_eq!(service.get_alive_nodes(), vec!["node-1"]);
    assert!(!service.is_leader());
    assert_eq!(service.write(b"x".to_vec()).unwrap_err(), ReplicationError::NotLeader);
    assert_eq!(service.read(0), None);
    service.state_manager.set_leader("node-1".to_string());
    assert!(service.is_leader());
    assert_eq!(service.write(b"x".to_vec()), Ok(0));
    assert_eq!(service.write(b"y".to_vec()), Ok(1));
    assert_eq!(service.read(0), Some(b"x".to_vec()));
    assert_eq!(service.read(1), Some(b"y".to_vec()));
    assert_eq!(service.read(2), None);
    assert_eq!(service.get_cluster_state().last_applied, 2);
    service.state_manager.set_leader("node-2".to_string());
    assert_eq!(service.write(b"z".to_vec()).unwrap_err(), ReplicationError::NotLeader);
    assert_eq!(service.read(1), Some(b"y".to_vec()));
}

#[test]
fn terms_are_kept_as_eight_bytes_each() {
    let mut leader = leader("node-1", 0x0102);
    assert_eq!(leader.replication.term_image(), Vec::<u8>::new());
    leader.replication.append_entry(&mut leader.state, &mut leader.log, b"a".to_vec()).unwrap();
    leader.state.observe_term(0x0a0b_0c0d_0e0f_1011);
    leader.state.set_leader("node-1".to_string());
    leader.replication.append_entry(&mut leader.state, &mut leader.log, b"b".to_vec()).unwrap();
    assert_eq!(
        leader.replication.term_image(),
        vec![0, 0, 0, 0, 0, 0, 1, 2, 0x0a, 0x0b, 0x0c, 0x0d, 0x0e, 0x0f, 0x10, 0x11]
    );
}

#[test]
fn a_node_goes_on_over_its_files() {
    let state = ClusterStateManager::new("node-1".to_string());
    let log = log_with(64, 48);
    let log_config = log.config;
    let mut service = WalService::new(log, state, config("node-1"), 0);
    service.start();
    service.state_manager.observe_term(3);
    service.state_manager.set_leader("node-1".to_string());
    for i in 0..9 {
        assert_eq!(service.write(format!("command {}", i).into_bytes()), Ok(i));
    }
    let mut files = service.files();
    assert_eq!(files.last().unwrap().name, "terms");
    assert_eq!(files.last().unwrap().data.len(), 72);
    let terms = files.pop().unwrap().data;

    let reopen = |files: Vec<walrus::log::log::FileImage>, terms: &Vec<u8>| {
        let log = Log::new("data".to_string(), log_config, files).unwrap();
        WalService::reopen(log, ClusterStateManager::new("node-1".to_string()), config("node-1"), terms, 50)
    };
    let copy = |files: &Vec<walrus::log::log::FileImage>| -> Vec<walrus::log::log::FileImage> {
        files
            .iter()
            .map(|f| walrus::log::log::FileImage { name: f.name.clone(), data: f.data.clone() })
            .collect()
    };
    let mut again = reopen(copy(&files), &terms).unwrap();
    assert_eq!(again.get_cluster_state().last_applied, 9);
    assert_eq!(again.get_cluster_state().commit_index, 0);
    assert_eq!(again.replication.terms, vec![3; 9]);
    assert_eq!(again.election.election_timer, 50);
    for i in 0..9 {
        assert_eq!(again.read(i), Some(format!("command {}", i).into_bytes()));
    }
    again.state_manager.observe_term(4);
    again.state_manager.set_leader("node-1".to_string());
    assert_eq!(again.write(b"more".to_vec()), Ok(9));
    assert_eq!(again.replication.terms.last(), Some(&4));

    // Terms that are not those of the records, or files that are not those
    // of a log.
    assert!(reopen(copy(&files), &terms[..64].to_vec()).is_none());
    assert!(reopen(copy(&files), &terms[..71].to_vec()).is_none());
    assert!(reopen(copy(&files), &Vec::new()).is_none());
    let mut damaged = copy(&files);
    damaged[0].data[7] += 1;
    assert!(reopen(damaged, &terms).is_none());
    // No files at all: a node that starts anew.
    let fresh = reopen(Vec::new(), &Vec::new()).unwrap();
    assert_eq!(fresh.get_cluster_state().last_applied, 0);
    assert_eq!(fresh.read(0), None);
}

#[test]
fn peers_to_address_are_the_alive_nodes_but_the_node_itself() {
    let mut leader = leader("node-1", 1);
    assert_eq!(leader.replication.peers_to_address(&leader.state), vec!["node-2", "node-3"]);
    leader.state.mark_node_dead("node-2");
    assert_eq!(leader.replication.peers_to_address(&leader.state), vec!["node-3"]);
    leader.state.mark_node_dead("node-1");
    leader.state.mark_node_dead("node-3");
    assert!(leader.replication.peers_to_address(&leader.state).is_empty());
}

#[test]
fn a_write_is_answered_once_it_is_committed() {
    let mut state = ClusterStateManager::new("node-1".to_string());
    for (i, peer) in IDS.iter().enumerate() {
        state.add_node(NodeInfo::new(peer.to_string(), format!("127.0.0.1:{}", 8080 + i)));
    }
    let mut service = WalService::new(log_with(1024, 1024), state, config("node-1"), 0);
    assert_eq!(service.write_step(0, 1), WriteStep::NotLeader);
    assert_eq!(service.conclude_write(0, 1), WriteStep::NotLeader);
    service.state_manager.observe_term(1);
    service.state_manager.set_leader("node-1".to_string());
    service.replication.reset_peers(&service.state_manager);
    assert_eq!(service.write(b"x".to_vec()), Ok(0));
    // No follower has answered: the write is stored and not answered.
    assert_eq!(service.write_step(0, 1), WriteStep::Retry(5000));
    assert_eq!(service.conclude_write(0, 1), WriteStep::Retry(5000));
    assert_eq!(service.get_cluster_state().commit_index, 0);
    // A follower refuses: still no answer.
    service.replication.replicate_to_node(&mut service.state_manager, "node-2", 0, 1, refused(1));
    assert_eq!(service.conclude_write(0, 1), WriteStep::Retry(5000));
    // A follower accepts: the leader and the follower are a quorum of three.
    service.replication.replicate_to_node(&mut service.state_manager, "node-2", 0, 1, ok(1, 1));
    assert_eq!(service.conclude_write(0, 1), WriteStep::Reply(0));
    assert_eq!(service.get_cluster_state().commit_index, 1);
    assert_eq!(service.replication.accepted, 0);
    assert_eq!(service.write_step(0, 1), WriteStep::Reply(0));
    assert_eq!(service.write_step(1, 2), WriteStep::Retry(5000));
    // With the third node marked dead, one follower is still a quorum.
    service.state_manager.mark_node_dead("node-3");
    assert_eq!(service.write(b"y".to_vec()), Ok(1));
    service.replication.replicate_to_node(&mut service.state_manager, "node-2", 1, 1, ok(1, 2));
    assert_eq!(service.conclude_write(1, 2), WriteStep::Reply(1));
    // An answer of a newer term: the node is no longer the leader.
    assert_eq!(service.write(b"z".to_vec()), Ok(2));
    service.replication.replicate_to_node(&mut service.state_manager, "node-2", 2, 1, refused(2));
    assert_eq!(service.conclude_write(2, 3), WriteStep::NotLeader);
    assert_eq!(service.write_step(2, 3), WriteStep::NotLeader);
}
