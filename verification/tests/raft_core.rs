//! Tests of the consensus core: log bookkeeping, the two RPC handlers,
//! elections, replication accounting and commit advancement.

use raft_cluster::election::{ElectionResult, ElectionState};
use raft_cluster::engine::{serialize_config_change, ProposalStatus, RaftError};
use raft_cluster::log::{LogEntry, RaftLog};
use raft_cluster::messages::{AppendEntriesRequest, VoteRequest, VoteResponse};
use raft_cluster::node::{NodeRole, PeerIndexMap, RaftNode};
use raft_cluster::replication::{
    LogEntryState, LogReplication, ReplicationResult, ReplicationTask, RetryCounts,
};

fn create_test_entry(index: u64, term: u64, data: &str) -> LogEntry {
    LogEntry {
        index,
        term,
        data: data.as_bytes().to_vec(),
        entry_type: "config".to_string(),
        key: format!("key_{}", index),
    }
}

fn create_test_node() -> RaftNode {
    let mut node = RaftNode::new(
        "test-node".to_string(),
        vec!["peer1".to_string(), "peer2".to_string()],
    );
    node.current_term = 1;
    node.state_machine
        .set("test_key".to_string(), b"test_value".to_vec());
    node
}

#[test]
fn leader_election_test_majority_calculation() {
    assert_eq!(ElectionState::calculate_majority(1), 1);
    assert_eq!(ElectionState::calculate_majority(2), 2);
    assert_eq!(ElectionState::calculate_majority(3), 2);
    assert_eq!(ElectionState::calculate_majority(4), 3);
    assert_eq!(ElectionState::calculate_majority(5), 3);
}

#[test]
fn log_replication_test_majority_calculation() {
    assert_eq!(ElectionState::calculate_majority(1), 1);
    assert_eq!(ElectionState::calculate_majority(2), 2);
    assert_eq!(ElectionState::calculate_majority(3), 2);
    assert_eq!(ElectionState::calculate_majority(4), 3);
    assert_eq!(ElectionState::calculate_majority(5), 3);
}

#[test]
fn test_replication_state_transitions() {
    let mut state = LogEntryState::Local;
    assert!(matches!(state, LogEntryState::Local));

    state = LogEntryState::Replicating {
        confirmed_nodes: Vec::new(),
        required_confirmations: 3,
        retry_count: RetryCounts::new(),
    };

    if let LogEntryState::Replicating { confirmed_nodes, .. } = &mut state {
        confirmed_nodes.push("node1".to_string());
        confirmed_nodes.push("node2".to_string());
    }

    state = LogEntryState::Committed;
    assert!(matches!(state, LogEntryState::Committed));

    state = LogEntryState::Applied;
    assert!(matches!(state, LogEntryState::Applied));
}

#[test]
fn test_log_consistency_check() {
    let logs = vec![
        create_test_entry(1, 1, "data1"),
        create_test_entry(2, 1, "data2"),
        create_test_entry(3, 2, "data3"),
    ];

    assert!(LogReplication::check_log_consistency(&logs, 0, 0));

    assert!(LogReplication::check_log_consistency(&logs, 1, 1));
    assert!(LogReplication::check_log_consistency(&logs, 2, 1));
    assert!(LogReplication::check_log_consistency(&logs, 3, 2));

    assert!(!LogReplication::check_log_consistency(&logs, 1, 2));
    assert!(!LogReplication::check_log_consistency(&logs, 2, 2));

    assert!(!LogReplication::check_log_consistency(&logs, 4, 2));
    assert!(!LogReplication::check_log_consistency(&logs, 10, 1));
}

#[test]
fn test_log_conflict_handling() {
    let mut next_index = PeerIndexMap::new();
    next_index.insert("node1".to_string(), 5);
    LogReplication::handle_log_conflict(&mut next_index, &"node1".to_string(), 3);
    assert_eq!(next_index.get(&"node1".to_string()), Some(3));

    let mut next_index = PeerIndexMap::new();
    next_index.insert("node2".to_string(), 3);
    LogReplication::handle_log_conflict(&mut next_index, &"node2".to_string(), 0);
    assert_eq!(next_index.get(&"node2".to_string()), Some(2));

    let mut next_index = PeerIndexMap::new();
    next_index.insert("node1".to_string(), 3);
    LogReplication::handle_log_conflict(&mut next_index, &"node1".to_string(), 10);
    assert_eq!(next_index.get(&"node1".to_string()), Some(2));

    let mut next_index = PeerIndexMap::new();
    next_index.insert("node3".to_string(), 1);
    LogReplication::handle_log_conflict(&mut next_index, &"node3".to_string(), 0);
    assert_eq!(next_index.get(&"node3".to_string()), Some(1));
}

#[test]
fn test_retry_count_tracking() {
    let mut retry_count = RetryCounts::new();

    for i in 1..=3u64 {
        retry_count.bump(&"node1".to_string());
        let current_retries = retry_count.get(&"node1".to_string());

        if i < 3 {
            assert!(current_retries < 3);
        } else {
            assert!(current_retries >= 3);
        }
    }

    assert_eq!(retry_count.get(&"node1".to_string()), 3);
}

#[test]
fn test_majority_calculation() {
    assert_eq!(ElectionState::calculate_majority(1), 1);
    assert_eq!(ElectionState::calculate_majority(2), 2);
    assert_eq!(ElectionState::calculate_majority(3), 2);
    assert_eq!(ElectionState::calculate_majority(4), 3);
    assert_eq!(ElectionState::calculate_majority(5), 3);
}

#[test]
fn test_replication_task_creation() {
    let entry = create_test_entry(1, 1, "test_data");
    let peers = vec!["node2".to_string(), "node3".to_string(), "node4".to_string()];

    let task = ReplicationTask {
        entry: entry.clone(),
        target_nodes: peers.clone(),
        state: LogEntryState::Replicating {
            confirmed_nodes: Vec::new(),
            required_confirmations: peers.len() / 2 + 1,
            retry_count: RetryCounts::new(),
        },
        created_at_ms: 0,
    };

    assert_eq!(task.entry.index, 1);
    assert_eq!(task.target_nodes.len(), 3);

    if let LogEntryState::Replicating {
        required_confirmations,
        ..
    } = task.state
    {
        assert_eq!(required_confirmations, 2);
    } else {
        panic!("state should be Replicating");
    }
}

#[test]
fn test_replication_round_judgement() {
    let rules = LogReplication::new();
    let targets = vec!["node2".to_string(), "node3".to_string(), "node4".to_string()];
    let mut confirmed: Vec<String> = Vec::new();
    let mut retries = RetryCounts::new();

    // a fresh round is still in progress
    assert!(matches!(
        rules.judge_round(&confirmed, 2, &targets, &retries),
        ReplicationResult::InProgress
    ));

    // one success and one refusal come back
    assert!(LogReplication::handle_append_response(
        &mut confirmed,
        &mut retries,
        &"node2".to_string(),
        true
    ));
    assert!(!LogReplication::handle_append_response(
        &mut confirmed,
        &mut retries,
        &"node3".to_string(),
        false
    ));
    assert_eq!(confirmed.len(), 1);
    assert_eq!(retries.get(&"node3".to_string()), 1);

    // a duplicate success is not double-counted
    assert!(LogReplication::handle_append_response(
        &mut confirmed,
        &mut retries,
        &"node2".to_string(),
        true
    ));
    assert_eq!(confirmed.len(), 1);

    // the second confirmation reaches the majority
    assert!(LogReplication::handle_append_response(
        &mut confirmed,
        &mut retries,
        &"node4".to_string(),
        true
    ));
    assert!(matches!(
        rules.judge_round(&confirmed, 2, &targets, &retries),
        ReplicationResult::Success
    ));

    // and a round with every lagging peer out of retries has failed
    let mut spent = RetryCounts::new();
    for _ in 0..3 {
        spent.bump(&"node9".to_string());
    }
    let lone_target = vec!["node9".to_string()];
    let nobody: Vec<String> = Vec::new();
    assert!(matches!(
        rules.judge_round(&nobody, 2, &lone_target, &spent),
        ReplicationResult::Failed(_)
    ));
}

#[test]
fn test_random_election_timeout() {
    for _ in 0..100 {
        let timeout = raft_cluster::election::random_election_timeout();
        assert!(timeout >= 150);
        assert!(timeout <= 300);
    }
}

#[test]
fn test_handle_vote_request_success() {
    let mut node = create_test_node();

    let vote_req = VoteRequest {
        term: 2,
        candidate_id: "candidate-1".to_string(),
        last_log_index: 0,
        last_log_term: 0,
    };

    let response = node.handle_vote_request(&vote_req, 500);

    assert_eq!(response.term, 2);
    assert!(response.vote_granted);
    assert_eq!(response.voter_id, "test-node");

    assert_eq!(node.current_term, 2);
    assert_eq!(node.voted_for, Some("candidate-1".to_string()));
    assert_eq!(node.role, NodeRole::Follower);
    // the election timer is reset exactly on a grant
    assert_eq!(node.election_timeout, 500);
}

#[test]
fn test_handle_vote_request_reject_lower_term() {
    let mut node = create_test_node();

    let vote_req = VoteRequest {
        term: 0,
        candidate_id: "candidate-1".to_string(),
        last_log_index: 0,
        last_log_term: 0,
    };

    let response = node.handle_vote_request(&vote_req, 500);

    assert_eq!(response.term, 1);
    assert!(!response.vote_granted);
    assert_eq!(response.voter_id, "test-node");
    assert_eq!(node.election_timeout, 0);
}

#[test]
fn test_vote_denied_when_already_voted_for_other() {
    let mut node = create_test_node();
    node.voted_for = Some("someone-else".to_string());

    let vote_req = VoteRequest {
        term: 1,
        candidate_id: "candidate-1".to_string(),
        last_log_index: 0,
        last_log_term: 0,
    };

    let response = node.handle_vote_request(&vote_req, 500);
    assert!(!response.vote_granted);
    assert_eq!(node.voted_for, Some("someone-else".to_string()));
}

#[test]
fn test_vote_denied_for_stale_log() {
    let mut node = create_test_node();
    node.log.append_entry(create_test_entry(1, 1, "x"));

    // candidate's log is behind: same term, lower last index
    let vote_req = VoteRequest {
        term: 2,
        candidate_id: "candidate-1".to_string(),
        last_log_index: 0,
        last_log_term: 1,
    };

    let response = node.handle_vote_request(&vote_req, 500);
    assert_eq!(response.term, 2);
    assert!(!response.vote_granted);
}

#[test]
fn test_handle_append_entries_success() {
    let mut node = create_test_node();

    let append_req = AppendEntriesRequest {
        term: 2,
        leader_id: "leader-1".to_string(),
        prev_log_index: 0,
        prev_log_term: 0,
        entries: vec![LogEntry {
            term: 2,
            index: 1,
            data: b"test_data".to_vec(),
            entry_type: "config_set".to_string(),
            key: "test_key".to_string(),
        }],
        leader_commit: 0,
    };

    let response = node.handle_append_entries(&append_req, 500);

    assert_eq!(response.term, 2);
    assert!(response.success);
    assert_eq!(response.follower_id, "test-node");

    assert_eq!(node.current_term, 2);
    assert_eq!(node.role, NodeRole::Follower);
    assert_eq!(node.leader_id, Some("leader-1".to_string()));
    assert_eq!(node.log.last_log_index(), 1);
}

#[test]
fn test_handle_append_entries_reject_lower_term() {
    let mut node = create_test_node();

    let append_req = AppendEntriesRequest {
        term: 0,
        leader_id: "leader-1".to_string(),
        prev_log_index: 0,
        prev_log_term: 0,
        entries: vec![],
        leader_commit: 0,
    };

    let response = node.handle_append_entries(&append_req, 500);

    assert_eq!(response.term, 1);
    assert!(!response.success);
    assert_eq!(response.follower_id, "test-node");
}

#[test]
fn test_read_config_from_state_machine() {
    let node = create_test_node();

    let result = node.read_config_from_state_machine(&"test_key".to_string());

    assert!(result.is_ok());
    let (value, term) = result.unwrap();
    assert_eq!(value, b"test_value");
    assert_eq!(term, 1);

    let missing = node.read_config_from_state_machine(&"other_key".to_string());
    assert!(missing.is_err());
}

#[test]
fn test_get_cluster_info() {
    let node = create_test_node();

    let info = node.get_cluster_info();

    assert_eq!(info.node_id, "test-node");
    assert_eq!(info.current_term, 1);
    assert_eq!(info.role, NodeRole::Follower);
    assert_eq!(info.peers, vec!["peer1", "peer2"]);
    assert_eq!(info.last_log_index, 0);
    assert_eq!(info.commit_index, 0);
}

#[test]
fn test_deep_integration_workflow() {
    let mut node = create_test_node();

    let vote_req = VoteRequest {
        term: 2,
        candidate_id: "candidate-1".to_string(),
        last_log_index: 0,
        last_log_term: 0,
    };
    let vote_response = node.handle_vote_request(&vote_req, 500);
    assert!(vote_response.vote_granted);

    let append_req = AppendEntriesRequest {
        term: 3,
        leader_id: "leader-1".to_string(),
        prev_log_index: 0,
        prev_log_term: 0,
        entries: vec![LogEntry {
            term: 3,
            index: 1,
            data: b"config_update".to_vec(),
            entry_type: "config_set".to_string(),
            key: "config_key".to_string(),
        }],
        leader_commit: 1,
    };
    let append_response = node.handle_append_entries(&append_req, 500);
    assert!(append_response.success);

    let info = node.get_cluster_info();
    assert_eq!(info.current_term, 3);
    assert_eq!(info.leader_id, Some("leader-1".to_string()));
    assert_eq!(info.last_log_index, 1);
    assert_eq!(info.commit_index, 1);
}

#[test]
fn test_election_success_with_majority() {
    let mut node = RaftNode::new(
        "node1".to_string(),
        vec![
            "node2".to_string(),
            "node3".to_string(),
            "node4".to_string(),
            "node5".to_string(),
        ],
    );
    node.current_term = 1;

    let (request, mut tally) = node.begin_election(500);
    assert_eq!(request.term, 2);
    assert_eq!(tally.majority_needed, 3);

    let grant = |id: &str| VoteResponse {
        term: 2,
        vote_granted: true,
        voter_id: id.to_string(),
    };
    let deny = |id: &str| VoteResponse {
        term: 2,
        vote_granted: false,
        voter_id: id.to_string(),
    };

    let r2 = tally.record_vote(&"node2".to_string(), &grant("node2"));
    assert!(r2.is_none());
    let r3 = tally.record_vote(&"node3".to_string(), &grant("node3"));
    assert!(matches!(r3, Some(ElectionResult::Won)));
    let _ = tally.record_vote(&"node4".to_string(), &deny("node4"));

    node.become_leader();
    assert_eq!(node.role, NodeRole::Leader);
    assert_eq!(node.current_term, 2);
    assert_eq!(node.leader_id, Some("node1".to_string()));
}

#[test]
fn test_election_failure_no_majority() {
    let mut node = RaftNode::new(
        "node1".to_string(),
        vec![
            "node2".to_string(),
            "node3".to_string(),
            "node4".to_string(),
            "node5".to_string(),
        ],
    );
    node.current_term = 1;

    let (_request, mut tally) = node.begin_election(500);

    let grant = VoteResponse {
        term: 2,
        vote_granted: true,
        voter_id: "node2".to_string(),
    };
    assert!(tally.record_vote(&"node2".to_string(), &grant).is_none());
    for id in ["node3", "node4", "node5"] {
        let deny = VoteResponse {
            term: 2,
            vote_granted: false,
            voter_id: id.to_string(),
        };
        assert!(tally.record_vote(&id.to_string(), &deny).is_none());
    }
    assert!(tally.vote_count < tally.majority_needed);

    let term_seen = node.current_term;
    node.become_follower(term_seen, None, 700);
    assert_eq!(node.role, NodeRole::Follower);
    assert_eq!(node.current_term, 2);
}

#[test]
fn test_election_discovers_higher_term() {
    let mut node = RaftNode::new(
        "node1".to_string(),
        vec!["node2".to_string(), "node3".to_string()],
    );
    node.current_term = 1;

    let (_request, mut tally) = node.begin_election(500);

    let higher = VoteResponse {
        term: 5,
        vote_granted: false,
        voter_id: "node2".to_string(),
    };
    let outcome = tally.record_vote(&"node2".to_string(), &higher);
    assert!(matches!(outcome, Some(ElectionResult::TermUpdated(5))));

    node.become_follower(5, None, 700);
    assert_eq!(node.role, NodeRole::Follower);
    assert_eq!(node.current_term, 5);
    assert_eq!(node.voted_for, None);
}

#[test]
fn test_election_with_network_errors() {
    let mut node = RaftNode::new(
        "node1".to_string(),
        vec![
            "node2".to_string(),
            "node3".to_string(),
            "node4".to_string(),
            "node5".to_string(),
        ],
    );
    node.current_term = 1;

    let (_request, mut tally) = node.begin_election(500);

    // node4 and node5 are unreachable: no responses from them at all
    let g2 = VoteResponse {
        term: 2,
        vote_granted: true,
        voter_id: "node2".to_string(),
    };
    let g3 = VoteResponse {
        term: 2,
        vote_granted: true,
        voter_id: "node3".to_string(),
    };
    assert!(tally.record_vote(&"node2".to_string(), &g2).is_none());
    let won = tally.record_vote(&"node3".to_string(), &g3);
    assert!(matches!(won, Some(ElectionResult::Won)));

    node.become_leader();
    assert_eq!(node.role, NodeRole::Leader);
}

#[test]
fn test_single_node_cluster() {
    let mut node = RaftNode::new("node1".to_string(), vec![]);
    node.current_term = 1;

    let (_request, tally) = node.begin_election(500);

    // the sole node is its own majority, immediately
    assert!(tally.vote_count >= tally.majority_needed);
    node.become_leader();

    assert_eq!(node.role, NodeRole::Leader);
    assert_eq!(node.current_term, 2);
}

#[test]
fn test_duplicate_vote_counted_once() {
    let mut node = RaftNode::new(
        "node1".to_string(),
        vec![
            "node2".to_string(),
            "node3".to_string(),
            "node4".to_string(),
            "node5".to_string(),
        ],
    );
    node.current_term = 1;
    let (_request, mut tally) = node.begin_election(500);
    let grant = VoteResponse {
        term: 2,
        vote_granted: true,
        voter_id: "node2".to_string(),
    };
    assert!(tally.record_vote(&"node2".to_string(), &grant).is_none());
    assert!(tally.record_vote(&"node2".to_string(), &grant).is_none());
    assert_eq!(tally.vote_count, 2);
}

#[test]
fn test_append_entries_redelivery_is_idempotent() {
    // re-delivering the same request gives the same response and state
    let mut node = create_test_node();

    let req = AppendEntriesRequest {
        term: 2,
        leader_id: "leader-1".to_string(),
        prev_log_index: 0,
        prev_log_term: 0,
        entries: vec![
            LogEntry {
                term: 2,
                index: 1,
                data: b"alpha".to_vec(),
                entry_type: "config_set".to_string(),
                key: "a".to_string(),
            },
            LogEntry {
                term: 2,
                index: 2,
                data: b"beta".to_vec(),
                entry_type: "config_set".to_string(),
                key: "b".to_string(),
            },
        ],
        leader_commit: 1,
    };

    let first = node.handle_append_entries(&req, 500);
    let log_len_after_first = node.log.entities.len();
    let commit_after_first = node.log.commit_index;

    let again = node.handle_append_entries(&req, 500);

    assert_eq!(first.term, again.term);
    assert_eq!(first.success, again.success);
    assert_eq!(first.conflict_index, again.conflict_index);
    assert_eq!(node.log.entities.len(), log_len_after_first);
    assert_eq!(node.log.commit_index, commit_after_first);
    assert_eq!(node.log.last_log_index(), 2);
}

#[test]
fn test_conflict_hint_names_first_index_of_term() {
    // follower: [1@1, 2@2, 3@2, 4@2]; the leader probes index 4 with a
    // different term, and the hint jumps to the start of term 2
    let mut node = create_test_node();
    node.current_term = 2;
    node.log.append_entry(create_test_entry(1, 1, "a"));
    node.log.append_entry(create_test_entry(2, 2, "b"));
    node.log.append_entry(create_test_entry(3, 2, "c"));
    node.log.append_entry(create_test_entry(4, 2, "d"));

    let req = AppendEntriesRequest {
        term: 5,
        leader_id: "leader-1".to_string(),
        prev_log_index: 4,
        prev_log_term: 3,
        entries: vec![],
        leader_commit: 0,
    };
    let resp = node.handle_append_entries(&req, 500);
    assert!(!resp.success);
    assert_eq!(resp.conflict_index, 2);

    // a probe past the end of the log hints one past the last index
    let req2 = AppendEntriesRequest {
        term: 5,
        leader_id: "leader-1".to_string(),
        prev_log_index: 99,
        prev_log_term: 5,
        entries: vec![],
        leader_commit: 0,
    };
    let resp2 = node.handle_append_entries(&req2, 500);
    assert!(!resp2.success);
    assert_eq!(resp2.conflict_index, 5);
}

#[test]
fn test_conflicting_tail_is_truncated() {
    // the follower holds an uncommitted tail from an old leader; the new
    // leader's entries replace it from the conflict on
    let mut node = create_test_node();
    node.current_term = 2;
    node.log.append_entry(LogEntry {
        term: 1,
        index: 1,
        data: vec![],
        entry_type: "noop".to_string(),
        key: String::new(),
    });
    node.log.append_entry(LogEntry {
        term: 2,
        index: 2,
        data: b"old".to_vec(),
        entry_type: "config_set".to_string(),
        key: "a".to_string(),
    });

    let req = AppendEntriesRequest {
        term: 3,
        leader_id: "node-b".to_string(),
        prev_log_index: 1,
        prev_log_term: 1,
        entries: vec![
            LogEntry {
                term: 3,
                index: 2,
                data: vec![],
                entry_type: "noop".to_string(),
                key: String::new(),
            },
            LogEntry {
                term: 3,
                index: 3,
                data: b"new".to_vec(),
                entry_type: "config_set".to_string(),
                key: "b".to_string(),
            },
        ],
        leader_commit: 3,
    };
    let resp = node.handle_append_entries(&req, 500);
    assert!(resp.success);
    assert_eq!(node.log.last_log_index(), 3);
    assert_eq!(node.log.commit_index, 3);
    assert_eq!(node.log.entities[1].term, 3);

    node.apply_committed();
    // the overwritten change to "a" never applies
    assert!(node
        .read_config_from_state_machine(&"a".to_string())
        .is_err());
    assert!(node
        .read_config_from_state_machine(&"b".to_string())
        .is_ok());
}

#[test]
fn test_propose_on_leader_appends_entry() {
    let mut node = RaftNode::new(
        "node1".to_string(),
        vec!["node2".to_string(), "node3".to_string()],
    );
    node.current_term = 1;
    let (_req, _tally) = node.begin_election(500);
    node.become_leader();
    assert_eq!(node.log.last_log_index(), 1);
    // the tracker starts every peer just past the pre-election log
    assert_eq!(node.next_index.get(&"node2".to_string()), Some(1));
    assert_eq!(node.match_index.get(&"node2".to_string()), Some(0));

    let index = node
        .propose_config("cluster.name".to_string(), b"x".to_vec())
        .unwrap();
    assert_eq!(index, 2);
    assert_eq!(node.log.last_log_index(), 2);
    assert_eq!(node.log.entities[1].key, "cluster.name");
    assert_eq!(node.log.entities[1].term, 2);
}

#[test]
fn test_propose_on_follower_is_refused() {
    let mut node = create_test_node();
    node.leader_id = Some("leader-9".to_string());
    let refused = node.propose_config("k".to_string(), b"v".to_vec());
    match refused {
        Err(RaftError::NotLeader { leader_hint }) => {
            assert_eq!(leader_hint, Some("leader-9".to_string()));
        }
        _ => panic!("a follower must refuse proposals"),
    }
    assert_eq!(node.log.last_log_index(), 0);
}

#[test]
fn test_leader_commits_with_majority_and_own_term() {
    // three nodes; the leader and one follower form the majority
    let mut leader = RaftNode::new(
        "a".to_string(),
        vec!["b".to_string(), "c".to_string()],
    );
    leader.current_term = 0;
    let (_req, _tally) = leader.begin_election(500);
    leader.become_leader();
    let index = leader
        .propose_config("k".to_string(), b"v".to_vec())
        .unwrap();
    assert_eq!(index, 2);

    // nothing replicated yet: commit may not move
    assert!(!leader.advance_commit());
    assert_eq!(leader.log.commit_index, 0);

    // follower b confirms everything through index 2; c stays silent
    leader.record_append_success(&"b".to_string(), 2);
    assert!(leader.advance_commit());
    assert_eq!(leader.log.commit_index, 2);

    leader.apply_committed();
    let (value, _term) = leader
        .read_config_from_state_machine(&"k".to_string())
        .unwrap();
    assert_eq!(value, b"v");
}

#[test]
fn test_two_node_cluster_needs_both() {
    // with one of two nodes down there is no majority and no progress;
    // when the peer recovers, progress resumes
    let mut leader = RaftNode::new("a".to_string(), vec!["b".to_string()]);
    leader.current_term = 0;
    let (_req, _tally) = leader.begin_election(500);
    leader.become_leader();
    leader
        .propose_config("k".to_string(), b"v".to_vec())
        .unwrap();

    assert!(!leader.advance_commit());
    assert_eq!(leader.log.commit_index, 0);

    // b comes back and catches up
    leader.record_append_success(&"b".to_string(), 2);
    assert!(leader.advance_commit());
    assert_eq!(leader.log.commit_index, 2);
}

#[test]
fn test_leader_cannot_commit_prior_term_by_count_alone() {
    // an entry from an earlier term never commits by replica count; the
    // noop of the current term must commit first and carries it along
    let mut leader = RaftNode::new(
        "a".to_string(),
        vec!["b".to_string(), "c".to_string()],
    );
    leader.current_term = 0;
    leader.log.append_entry(LogEntry {
        term: 1,
        index: 1,
        data: b"old".to_vec(),
        entry_type: "config_set".to_string(),
        key: "k".to_string(),
    });
    leader.current_term = 4;
    let (_req, _tally) = leader.begin_election(500); // becomes term 5
    leader.become_leader(); // appends noop at index 2 in term 5

    // b holds only the old entry at index 1
    leader.record_append_success(&"b".to_string(), 1);
    assert!(!leader.advance_commit());
    assert_eq!(leader.log.commit_index, 0);

    // once b also holds the term-5 noop, both commit
    leader.record_append_success(&"b".to_string(), 2);
    assert!(leader.advance_commit());
    assert_eq!(leader.log.commit_index, 2);
}

#[test]
fn test_restart_replay_rebuilds_state() {
    // a node restarts with its log intact: replaying the committed log
    // yields the same state machine contents
    let mut node = create_test_node();
    let req = AppendEntriesRequest {
        term: 2,
        leader_id: "leader-1".to_string(),
        prev_log_index: 0,
        prev_log_term: 0,
        entries: vec![
            LogEntry {
                term: 2,
                index: 1,
                data: b"one".to_vec(),
                entry_type: "config_set".to_string(),
                key: "x".to_string(),
            },
            LogEntry {
                term: 2,
                index: 2,
                data: b"two".to_vec(),
                entry_type: "config_set".to_string(),
                key: "y".to_string(),
            },
            LogEntry {
                term: 2,
                index: 3,
                data: b"three".to_vec(),
                entry_type: "config_set".to_string(),
                key: "x".to_string(),
            },
        ],
        leader_commit: 3,
    };
    assert!(node.handle_append_entries(&req, 500).success);
    node.apply_committed();
    let (x1, _) = node
        .read_config_from_state_machine(&"x".to_string())
        .unwrap();
    let (y1, _) = node
        .read_config_from_state_machine(&"y".to_string())
        .unwrap();

    // restart: fresh volatile state, same durable log
    let mut restarted = RaftNode::new(
        "test-node".to_string(),
        vec!["peer1".to_string(), "peer2".to_string()],
    );
    restarted.current_term = node.current_term;
    for e in &node.log.entities {
        restarted.log.append_entry(e.clone());
    }
    restarted.log.commit_index = node.log.commit_index;
    restarted.apply_committed();

    let (x2, _) = restarted
        .read_config_from_state_machine(&"x".to_string())
        .unwrap();
    let (y2, _) = restarted
        .read_config_from_state_machine(&"y".to_string())
        .unwrap();
    assert_eq!(x1, x2);
    assert_eq!(y1, y2);
    assert_eq!(x2, b"three");
    assert_eq!(y2, b"two");
}

#[test]
fn test_leader_request_catches_follower_up() {
    // the leader holds entries through index 3; a follower with only a
    // stale first entry refuses, the leader backtracks on the conflict
    // hint, and one more round brings the follower fully up to date
    let mut leader = RaftNode::new(
        "a".to_string(),
        vec!["f".to_string(), "g".to_string()],
    );
    leader.current_term = 4;
    let (_req, _tally) = leader.begin_election(500); // term 5
    leader.become_leader(); // noop at 1 in term 5
    leader.propose_config("k1".to_string(), b"v1".to_vec()).unwrap();
    leader.propose_config("k2".to_string(), b"v2".to_vec()).unwrap();
    assert_eq!(leader.log.last_log_index(), 3);

    let mut follower = RaftNode::new(
        "f".to_string(),
        vec!["a".to_string(), "g".to_string()],
    );
    follower.log.append_entry(LogEntry {
        term: 1,
        index: 1,
        data: vec![],
        entry_type: "noop".to_string(),
        key: String::new(),
    });
    follower.current_term = 1;

    // the leader first probes at its own last index
    leader.next_index.insert("f".to_string(), 3);
    let probe = leader.build_append_request(&"f".to_string()).unwrap();
    assert_eq!(probe.prev_log_index, 2);
    let refusal = follower.handle_append_entries(&probe, 500);
    assert!(!refusal.success);
    assert!(refusal.conflict_index > 0);

    // jump back to the follower's hint; its stale first entry still
    // conflicts, so one more hint lands at index one
    LogReplication::handle_log_conflict(
        &mut leader.next_index,
        &"f".to_string(),
        refusal.conflict_index,
    );
    let second_probe = leader.build_append_request(&"f".to_string()).unwrap();
    let second_refusal = follower.handle_append_entries(&second_probe, 500);
    assert!(!second_refusal.success);
    assert_eq!(second_refusal.conflict_index, 1);

    LogReplication::handle_log_conflict(
        &mut leader.next_index,
        &"f".to_string(),
        second_refusal.conflict_index,
    );
    let retry = leader.build_append_request(&"f".to_string()).unwrap();
    let accepted = follower.handle_append_entries(&retry, 500);
    assert!(accepted.success);
    assert_eq!(follower.log.last_log_index(), 3);
    assert_eq!(follower.log.entities[0].term, 5);

    // the confirmation lets the leader commit everything
    leader.record_append_success(
        &"f".to_string(),
        retry.prev_log_index + retry.entries.len() as u64,
    );
    assert!(leader.advance_commit());
    assert_eq!(leader.log.commit_index, 3);

    // and the next heartbeat carries the commit to the follower
    let heartbeat = leader.build_append_request(&"f".to_string()).unwrap();
    let beat_reply = follower.handle_append_entries(&heartbeat, 500);
    assert!(beat_reply.success);
    assert_eq!(follower.log.commit_index, 3);
    follower.apply_committed();
    let (v, _) = follower
        .read_config_from_state_machine(&"k2".to_string())
        .unwrap();
    assert_eq!(v, b"v2");
}

#[test]
fn test_vote_not_granted_twice_in_a_term() {
    // two candidates stand in the same term; whoever asks second is
    // refused, so the voter's grant set stays a function of the term
    let mut voter = RaftNode::new("c".to_string(), vec!["a".to_string(), "b".to_string()]);

    let first = VoteRequest {
        term: 2,
        candidate_id: "a".to_string(),
        last_log_index: 0,
        last_log_term: 0,
    };
    let second = VoteRequest {
        term: 2,
        candidate_id: "b".to_string(),
        last_log_index: 0,
        last_log_term: 0,
    };
    assert!(voter.handle_vote_request(&first, 500).vote_granted);
    assert!(!voter.handle_vote_request(&second, 600).vote_granted);
    // asking again for the same candidate is still granted
    assert!(voter.handle_vote_request(&first, 700).vote_granted);
}

#[test]
fn test_split_vote_resolves_in_a_later_term() {
    // a and b time out together in term 1 and split c's cluster: each
    // votes for itself, so neither reaches two of three; a re-election
    // in a later term, with only one candidate standing, wins
    let mut a = RaftNode::new("a".to_string(), vec!["b".to_string(), "c".to_string()]);
    let mut b = RaftNode::new("b".to_string(), vec!["a".to_string(), "c".to_string()]);
    let mut c = RaftNode::new("c".to_string(), vec!["a".to_string(), "b".to_string()]);
    a.current_term = 1;
    b.current_term = 1;
    c.current_term = 1;

    let (req_a, mut tally_a) = a.begin_election(500);
    let (req_b, mut tally_b) = b.begin_election(510);
    assert_eq!(req_a.term, 2);
    assert_eq!(req_b.term, 2);

    // c grants the first request it sees and then refuses the other
    let c_to_a = c.handle_vote_request(&req_a, 600);
    let c_to_b = c.handle_vote_request(&req_b, 610);
    assert!(c_to_a.vote_granted);
    assert!(!c_to_b.vote_granted);

    // each candidate refuses the other: both already voted for themselves
    let b_to_a = b.handle_vote_request(&req_a, 600);
    let a_to_b = a.handle_vote_request(&req_b, 610);
    assert!(!b_to_a.vote_granted);
    assert!(!a_to_b.vote_granted);

    let won_a = tally_a.record_vote(&"c".to_string(), &c_to_a);
    assert!(matches!(won_a, Some(ElectionResult::Won)));
    assert!(tally_a.record_vote(&"b".to_string(), &b_to_a).is_none());
    assert!(tally_b.record_vote(&"c".to_string(), &c_to_b).is_none());
    assert!(tally_b.record_vote(&"a".to_string(), &a_to_b).is_none());
    assert!(tally_b.vote_count < tally_b.majority_needed);

    // here a in fact won term 2; had both missed the majority, their
    // timers re-fire with fresh random values and one stands alone in
    // term 3
    b.become_follower(2, None, 700);
    let (req_b3, mut tally_b3) = b.begin_election(800);
    assert_eq!(req_b3.term, 3);
    let a_to_b3 = a.handle_vote_request(&req_b3, 810);
    let c_to_b3 = c.handle_vote_request(&req_b3, 820);
    assert!(a_to_b3.vote_granted);
    assert!(c_to_b3.vote_granted);
    let won_b3 = tally_b3.record_vote(&"a".to_string(), &a_to_b3);
    assert!(matches!(won_b3, Some(ElectionResult::Won)));
    b.become_leader();
    assert_eq!(b.role, NodeRole::Leader);
    assert_eq!(b.current_term, 3);
}

#[test]
fn test_validate_append_request_shapes() {
    let good = AppendEntriesRequest {
        term: 3,
        leader_id: "a".to_string(),
        prev_log_index: 1,
        prev_log_term: 1,
        entries: vec![
            create_test_entry(2, 2, "x"),
            create_test_entry(3, 3, "y"),
        ],
        leader_commit: 0,
    };
    assert!(raft_cluster::engine::validate_append_request(&good));

    let gap = AppendEntriesRequest {
        term: 3,
        leader_id: "a".to_string(),
        prev_log_index: 1,
        prev_log_term: 1,
        entries: vec![create_test_entry(5, 2, "x")],
        leader_commit: 0,
    };
    assert!(!raft_cluster::engine::validate_append_request(&gap));

    let sinking_terms = AppendEntriesRequest {
        term: 3,
        leader_id: "a".to_string(),
        prev_log_index: 1,
        prev_log_term: 1,
        entries: vec![
            create_test_entry(2, 3, "x"),
            create_test_entry(3, 2, "y"),
        ],
        leader_commit: 0,
    };
    assert!(!raft_cluster::engine::validate_append_request(&sinking_terms));
}

#[test]
fn test_consistent_reads_only_from_a_settled_leader() {
    // a follower may serve only stale reads
    let follower = create_test_node();
    assert!(matches!(
        follower.read_config(&"test_key".to_string(), true),
        Err(RaftError::NotLeader { .. })
    ));
    assert_eq!(
        follower.read_config(&"test_key".to_string(), false).unwrap(),
        Some(b"test_value".to_vec())
    );

    // a fresh leader must first commit its own no-op
    let mut leader = RaftNode::new("a".to_string(), vec!["b".to_string(), "c".to_string()]);
    let (_r, _t) = leader.begin_election(500);
    leader.become_leader();
    assert!(matches!(
        leader.read_config(&"x".to_string(), true),
        Err(RaftError::NotLeader { .. })
    ));

    leader.record_append_success(&"b".to_string(), 1);
    assert!(leader.advance_commit());
    leader.apply_committed();
    assert_eq!(leader.read_config(&"x".to_string(), true).unwrap(), None);
}

#[test]
fn test_proposal_status_tracks_commit_and_overwrite() {
    let mut leader = RaftNode::new("a".to_string(), vec!["b".to_string(), "c".to_string()]);
    let (_r, _t) = leader.begin_election(500); // term 1
    leader.become_leader();
    let index = leader.propose_config("k".to_string(), b"v".to_vec()).unwrap();
    let term = leader.current_term;

    assert_eq!(leader.check_proposal(index, term), ProposalStatus::Pending);

    leader.record_append_success(&"b".to_string(), index);
    assert!(leader.advance_commit());
    leader.apply_committed();
    assert_eq!(leader.check_proposal(index, term), ProposalStatus::Committed);

    // a deposed leader's uncommitted entry is overwritten by a new term
    let mut deposed = RaftNode::new("d".to_string(), vec!["a".to_string(), "b".to_string()]);
    let (_r2, _t2) = deposed.begin_election(500);
    deposed.become_leader();
    let lost_index = deposed
        .propose_config("k".to_string(), b"mine".to_vec())
        .unwrap();
    let lost_term = deposed.current_term;
    let replace = AppendEntriesRequest {
        term: lost_term + 1,
        leader_id: "a".to_string(),
        prev_log_index: 0,
        prev_log_term: 0,
        entries: vec![
            LogEntry {
                term: lost_term + 1,
                index: 1,
                data: vec![],
                entry_type: "noop".to_string(),
                key: String::new(),
            },
            LogEntry {
                term: lost_term + 1,
                index: 2,
                data: b"theirs".to_vec(),
                entry_type: "config_set".to_string(),
                key: "k".to_string(),
            },
        ],
        leader_commit: 0,
    };
    assert!(deposed.handle_append_entries(&replace, 600).success);
    assert_eq!(
        deposed.check_proposal(lost_index, lost_term),
        ProposalStatus::Lost
    );
}

#[test]
fn test_serialize_config_change() {
    let bytes = serialize_config_change("cluster.name".to_string(), b"raft".to_vec());
    assert_eq!(bytes, b"cluster.name:raft".to_vec());

    let empty_value = serialize_config_change("k".to_string(), vec![]);
    assert_eq!(empty_value, b"k:".to_vec());
}

#[test]
fn test_raft_log_operations() {
    let mut log = RaftLog::new();
    assert_eq!(log.last_log_index(), 0);
    assert_eq!(log.last_log_term(), 0);
    assert_eq!(log.get_term_at(0), Some(0));
    assert_eq!(log.get_term_at(1), None);
    assert!(!log.contains_entry(1, 1));

    log.append_entry(create_test_entry(1, 1, "a"));
    log.append_entries(vec![
        create_test_entry(2, 1, "b"),
        create_test_entry(3, 2, "c"),
    ]);

    assert_eq!(log.last_log_index(), 3);
    assert_eq!(log.last_log_term(), 2);
    assert_eq!(log.get_term_at(2), Some(1));
    assert!(log.contains_entry(3, 2));
    assert!(!log.contains_entry(3, 1));
    assert_eq!(log.get_entry_at(2).unwrap().index, 2);
    assert!(log.get_entry_at(9).is_none());

    let tail = log.get_entries_from(2);
    assert_eq!(tail.len(), 2);
    assert_eq!(tail[0].index, 2);
    assert_eq!(tail[1].index, 3);

    log.truncate_from(2);
    assert_eq!(log.last_log_index(), 1);
    assert_eq!(log.get_term_at(2), None);
}
