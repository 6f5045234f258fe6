//! Single nodes: their clocks, their votes and what they make of a leader's entries.

use ferris_ferry::raft::RaftCore;
use ferris_ferry::types::{
    Action, AppendEntriesRPC, InstallSnapshotRPC, InstallSnapshotResponseRPC, LogEntry, Message,
    RaftState, RequestVoteRPC, RequestVoteResponseRPC,
};

fn entry(term: u64, command: &str) -> LogEntry {
    LogEntry {
        term,
        command: command.as_bytes().to_vec(),
    }
}

fn append(
    term: u64,
    prev_log_index: u64,
    prev_log_term: u64,
    entries: Vec<LogEntry>,
    leader_commit: u64,
) -> AppendEntriesRPC {
    AppendEntriesRPC {
        term,
        leader_id: 2,
        prev_log_index,
        prev_log_term,
        entries,
        leader_commit,
    }
}

fn vote(term: u64, candidate_id: u64, last_log_index: u64, last_log_term: u64) -> RequestVoteRPC {
    RequestVoteRPC {
        term,
        candidate_id,
        last_log_index,
        last_log_term,
    }
}

fn granted(actions: &[Action]) -> bool {
    match actions.last() {
        Some(Action::SendMessage {
            message: Message::RequestVoteResponse(resp),
            ..
        }) => resp.vote_granted,
        other => panic!("{other:?}"),
    }
}

fn accepted(actions: &[Action]) -> bool {
    match actions.last() {
        Some(Action::SendMessage {
            message: Message::AppendEntriesResponse(resp),
            ..
        }) => resp.success,
        other => panic!("{other:?}"),
    }
}

fn leader_of_three() -> RaftCore {
    let mut node = RaftCore::new(1, &[1, 2, 3], None, 15..31);
    for _ in 0..node.election_timeout {
        node.tick();
    }
    node.handle_request_vote_response(RequestVoteResponseRPC {
        id: 2,
        term: 1,
        vote_granted: true,
    });
    assert!(node.is_leader());
    node
}

#[test]
fn an_election_starts_at_the_timeout_and_not_before() {
    let mut node = RaftCore::new(1, &[1, 2, 3], None, 15..31);
    assert!(15 <= node.election_timeout && node.election_timeout < 31);
    for _ in 0..node.election_timeout - 1 {
        assert!(node.tick().is_empty());
        assert_eq!(node.state, RaftState::Follower);
    }
    // the new term and the vote come first, then a request to each peer
    let actions = node.tick();
    assert_eq!(actions.len(), 3);
    assert!(matches!(
        actions[0],
        Action::PersistMetadata {
            term: 1,
            voted_for: Some(1)
        }
    ));
    assert_eq!(node.state, RaftState::Candidate);
    assert_eq!(node.current_term, 1);
    assert_eq!(node.voted_for, Some(1));
}

#[test]
fn timeouts_are_drawn_from_the_whole_range() {
    let drawn: std::collections::BTreeSet<u64> = (0..2000)
        .map(|_| RaftCore::new(1, &[1], None, 15..31).election_timeout)
        .collect();
    assert_eq!(drawn, (15..31).collect());
}

#[test]
fn heartbeats_come_at_their_interval() {
    let mut node = RaftCore::new(1, &[1, 2, 3], Some(4), 15..31);
    for _ in 0..node.election_timeout {
        node.tick();
    }
    node.handle_request_vote_response(RequestVoteResponseRPC {
        id: 3,
        term: 1,
        vote_granted: true,
    });
    for _ in 0..3 {
        for _ in 0..3 {
            assert!(node.tick().is_empty());
        }
        assert_eq!(node.tick().len(), 2);
    }
}

#[test]
fn a_vote_is_kept_for_its_term() {
    let mut node = RaftCore::new(1, &[1, 2, 3], None, 15..31);
    assert!(granted(&node.handle_request_vote(vote(3, 2, 0, 0))));
    assert!(!granted(&node.handle_request_vote(vote(3, 3, 0, 0))));
    assert!(granted(&node.handle_request_vote(vote(3, 2, 0, 0))));
    assert!(!granted(&node.handle_request_vote(vote(2, 3, 0, 0))));
    assert_eq!(node.voted_for, Some(2));
    assert_eq!(node.current_term, 3);
    // a later term has its own vote
    assert!(granted(&node.handle_request_vote(vote(4, 3, 0, 0))));
}

#[test]
fn a_log_that_falls_behind_gets_no_vote() {
    let mut node = RaftCore::restore(
        1,
        &[1, 2, 3],
        None,
        15..31,
        3,
        None,
        vec![entry(1, "a"), entry(3, "b")],
    );
    // an earlier last term, however long, and the same term with a shorter log
    assert!(!granted(&node.handle_request_vote(vote(4, 2, 9, 2))));
    assert!(!granted(&node.handle_request_vote(vote(4, 2, 1, 3))));
    assert!(granted(&node.handle_request_vote(vote(4, 2, 2, 3))));
}

#[test]
fn refused_entries_leave_the_log_alone() {
    let mut node = RaftCore::restore(
        1,
        &[1, 2, 3],
        None,
        15..31,
        2,
        None,
        vec![entry(1, "a"), entry(2, "b")],
    );
    let log = node.log.clone();
    // an old term, a gap, another term at the index before
    for req in [
        append(1, 2, 2, vec![entry(1, "x")], 9),
        append(2, 3, 2, vec![entry(2, "x")], 9),
        append(2, 2, 1, vec![entry(2, "x")], 9),
    ] {
        assert!(!accepted(&node.handle_append_entries(req)));
        assert_eq!(node.log, log);
        assert_eq!(node.commit_index, 0);
    }
}

#[test]
fn accepted_entries_replace_what_conflicts_and_nothing_else() {
    let mut node = RaftCore::restore(
        1,
        &[1, 2, 3],
        None,
        15..31,
        3,
        None,
        vec![entry(1, "a"), entry(2, "b"), entry(2, "c")],
    );
    // entries that are there already cut nothing off
    assert!(accepted(&node.handle_append_entries(append(
        3,
        0,
        0,
        vec![entry(1, "a")],
        0
    ))));
    assert_eq!(node.last_index(), 3);
    // a conflict cuts off all that follows
    let actions = node.handle_append_entries(append(3, 1, 1, vec![entry(3, "B")], 2));
    assert!(accepted(&actions));
    assert_eq!(node.log[1..], [entry(1, "a"), entry(3, "B")]);
    // and what the leader has committed is applied, in order
    let applied: Vec<(u64, Vec<u8>)> = actions
        .into_iter()
        .filter_map(|action| match action {
            Action::ApplyToStateMachine { index, command } => Some((index, command)),
            _ => None,
        })
        .collect();
    assert_eq!(applied, vec![(1, b"a".to_vec()), (2, b"B".to_vec())]);
    assert_eq!(node.commit_index, 2);
    assert_eq!(node.last_applied, 2);
}

#[test]
fn what_has_changed_is_handed_out_for_storage_once() {
    let mut node = RaftCore::new(1, &[1, 2, 3], None, 15..31);
    node.handle_append_entries(append(5, 0, 0, vec![entry(4, "a"), entry(5, "b")], 0));
    match &node.take_persistence()[..] {
        [Action::PersistMetadata { term, voted_for }, Action::PersistLogEntries {
            start_index,
            entries,
        }] => {
            assert_eq!(*term, 5);
            assert_eq!(*voted_for, None);
            assert_eq!(*start_index, 1);
            assert_eq!(*entries, vec![entry(4, "a"), entry(5, "b")]);
        }
        other => panic!("{other:?}"),
    }
    assert!(node.take_persistence().is_empty());
    // a conflict at the second entry: all from there on
    node.handle_append_entries(append(6, 1, 4, vec![entry(6, "B"), entry(6, "C")], 0));
    match &node.take_persistence()[..] {
        [Action::PersistMetadata { term: 6, .. }, Action::PersistLogEntries {
            start_index: 2,
            entries,
        }] => assert_eq!(entries.len(), 2),
        other => panic!("{other:?}"),
    }
}

#[test]
fn a_leader_refuses_entries_of_its_own_term() {
    let mut node = leader_of_three();
    let log = node.log.clone();
    assert!(!accepted(&node.handle_append_entries(append(
        1,
        0,
        0,
        vec![entry(1, "x")],
        0
    ))));
    assert!(node.is_leader());
    assert_eq!(node.log, log);
}

#[test]
fn a_snapshot_leaves_the_entries_after_it() {
    let mut node = RaftCore::restore(
        1,
        &[1, 2, 3],
        None,
        15..31,
        1,
        None,
        vec![entry(1, "a"), entry(1, "b"), entry(1, "c")],
    );
    node.handle_append_entries(append(1, 3, 1, vec![], 2));
    assert_eq!(node.last_applied, 2);
    let metadata = node.prepare_snapshot(2);
    assert_eq!(metadata.last_applied, 2);
    assert_eq!(metadata.last_applied_term, 1);
    node.complete_snapshot(metadata);
    assert_eq!(node.snapshot_index, 2);
    assert_eq!(node.log, vec![entry(1, ""), entry(1, "c")]);
    assert_eq!(node.last_index(), 3);
    // entries that the snapshot covers are taken to agree
    assert!(accepted(&node.handle_append_entries(append(
        1,
        1,
        1,
        vec![entry(1, "b"), entry(1, "c"), entry(1, "d")],
        2
    ))));
    assert_eq!(node.last_index(), 4);
}

#[test]
fn a_peer_far_behind_is_sent_the_snapshot() {
    let mut node = leader_of_three();
    node.propose(b"a".to_vec());
    node.handle_append_entries_response(ferris_ferry::types::AppendEntriesResponseRPC {
        id: 2,
        term: 1,
        match_index: 2,
        success: true,
        first_conflicting_index: None,
        first_conflicting_term: None,
    });
    assert_eq!(node.commit_index, 2);
    let metadata = node.prepare_snapshot(2);
    node.complete_snapshot(metadata);
    node.next_index.insert(3, 1);
    match &node.append_entries()[..] {
        [Action::SendMessage {
            target: 2,
            message: Message::AppendEntries(req),
        }, Action::SendInstallSnapshot {
            target: 3,
            term: 1,
            last_included_index: 2,
            last_included_term: 1,
        }] => {
            assert_eq!(req.prev_log_index, 2);
            assert!(req.entries.is_empty());
        }
        other => panic!("{other:?}"),
    }
    node.handle_install_snapshot_response(InstallSnapshotResponseRPC {
        id: 3,
        term: 1,
        last_included_index: 2,
    });
    assert_eq!(node.next_index[&3], 3);
    assert_eq!(node.match_index[&3], 2);
}

#[test]
fn a_snapshot_of_what_is_committed_already_changes_nothing() {
    let mut node = RaftCore::restore(
        1,
        &[1, 2, 3],
        None,
        15..31,
        1,
        None,
        vec![entry(1, "a"), entry(1, "b")],
    );
    node.handle_append_entries(append(1, 2, 1, vec![], 2));
    let log = node.log.clone();
    let actions = node.handle_install_snapshot(InstallSnapshotRPC {
        term: 1,
        leader_id: 2,
        last_included_index: 1,
        last_included_term: 1,
        data: vec![],
    });
    assert_eq!(actions.len(), 1);
    assert_eq!(node.log, log);
    assert_eq!(node.snapshot_index, 0);
}

#[test]
fn a_read_is_ready_once_its_entry_is_committed() {
    let mut node = leader_of_three();
    let id = node.request_read_barrier().unwrap();
    assert_eq!(id, 2);
    assert!(node.take_ready_reads().is_empty());
    node.handle_append_entries_response(ferris_ferry::types::AppendEntriesResponseRPC {
        id: 3,
        term: 1,
        match_index: 2,
        success: true,
        first_conflicting_index: None,
        first_conflicting_term: None,
    });
    assert!(matches!(
        node.take_ready_reads()[..],
        [Action::ReadBarrierReady { id: 2 }]
    ));
    assert!(node.take_ready_reads().is_empty());
    // who does not lead gives no leave to read
    let mut follower = RaftCore::new(2, &[1, 2, 3], None, 15..31);
    assert_eq!(follower.request_read_barrier(), None);
}

#[test]
fn a_vote_is_stored_before_it_leaves() {
    let mut node = RaftCore::new(1, &[1, 2, 3], None, 15..31);
    match &node.handle_request_vote(vote(3, 2, 0, 0))[..] {
        [Action::PersistMetadata {
            term: 3,
            voted_for: Some(2),
        }, Action::SendMessage {
            target: 2,
            message: Message::RequestVoteResponse(resp),
        }] => {
            assert!(resp.vote_granted);
            assert_eq!(resp.term, 3);
            assert_eq!(resp.id, 1);
        }
        other => panic!("{other:?}"),
    }
    assert!(node.take_persistence().is_empty());
    // a refusal in the same term has nothing to store
    let actions = node.handle_request_vote(vote(3, 3, 0, 0));
    assert_eq!(actions.len(), 1);
    assert!(!granted(&actions));
    // a refusal in a later term stores the term
    node.log.push(entry(3, "a"));
    let actions = node.handle_request_vote(vote(4, 3, 0, 0));
    assert!(matches!(
        actions[0],
        Action::PersistMetadata {
            term: 4,
            voted_for: None
        }
    ));
    assert!(!granted(&actions));
}

#[test]
fn a_winner_stores_its_first_entry_before_it_sends_it() {
    let mut node = RaftCore::new(1, &[1, 2, 3], None, 15..31);
    for _ in 0..node.election_timeout {
        node.tick();
    }
    let actions = node.handle_request_vote_response(RequestVoteResponseRPC {
        id: 2,
        term: 1,
        vote_granted: true,
    });
    assert_eq!(actions.len(), 3);
    match &actions[0] {
        Action::PersistLogEntries {
            start_index: 1,
            entries,
        } => assert_eq!(*entries, vec![entry(1, "")]),
        other => panic!("{other:?}"),
    }
}

#[test]
fn a_follower_reports_the_last_entry_that_was_sent() {
    let mut node = RaftCore::new(2, &[1, 2, 3], None, 15..31);
    let e = LogEntry {
        term: 1,
        command: vec![7],
    };
    let matched = |actions: &[Action]| match actions.last() {
        Some(Action::SendMessage {
            message: Message::AppendEntriesResponse(resp),
            ..
        }) => (resp.success, resp.match_index),
        other => panic!("{other:?}"),
    };
    let actions = node.handle_append_entries(AppendEntriesRPC {
        term: 1,
        leader_id: 1,
        prev_log_index: 0,
        prev_log_term: 0,
        entries: vec![e.clone(), e],
        leader_commit: 0,
    });
    assert_eq!(matched(&actions), (true, 2));
    // the second entry is not one that this leader has spoken of
    let actions = node.handle_append_entries(AppendEntriesRPC {
        term: 2,
        leader_id: 3,
        prev_log_index: 1,
        prev_log_term: 1,
        entries: vec![],
        leader_commit: 0,
    });
    assert_eq!(matched(&actions), (true, 1));
    assert_eq!(node.last_index(), 2);
    // a refusal says where the log ends
    let actions = node.handle_append_entries(append(2, 9, 2, vec![], 0));
    assert_eq!(matched(&actions), (false, 2));
}

#[test]
fn a_vote_of_an_earlier_term_does_not_count() {
    let mut node = RaftCore::new(1, &[1, 2, 3], None, 15..31);
    for _ in 0..2 {
        for _ in 0..node.election_timeout {
            node.tick();
        }
    }
    assert_eq!(node.current_term, 2);
    let late = RequestVoteResponseRPC {
        id: 2,
        term: 1,
        vote_granted: true,
    };
    assert!(node.handle_request_vote_response(late).is_empty());
    assert_eq!(node.state, RaftState::Candidate);
    assert_eq!(node.votes_received.len(), 1);
}

#[test]
fn only_the_leader_of_its_term_acts_on_an_answer() {
    let answer = |term, success, match_index| ferris_ferry::types::AppendEntriesResponseRPC {
        id: 2,
        term,
        match_index,
        success,
        first_conflicting_index: None,
        first_conflicting_term: None,
    };
    // word of a later term deposes the leader, and nothing else
    let mut node = leader_of_three();
    assert!(node
        .handle_append_entries_response(answer(5, false, 0))
        .is_empty());
    assert_eq!(node.state, RaftState::Follower);
    assert_eq!(node.current_term, 5);
    // it does not commit or send any more, whatever comes in
    for resp in [answer(5, false, 0), answer(1, true, 1), answer(5, true, 1)] {
        assert!(node.handle_append_entries_response(resp).is_empty());
    }
    assert_eq!(node.commit_index, 0);

    // a leader does not rely on word from an earlier term
    let mut node = leader_of_three();
    node.current_term = 2;
    assert!(node
        .handle_append_entries_response(answer(1, true, 1))
        .is_empty());
    assert_eq!(node.match_index[&2], 0);
}

#[test]
fn a_candidate_has_its_own_vote_and_asks_for_the_others() {
    let mut node = RaftCore::restore(
        2,
        &[1, 2, 3],
        None,
        5..6,
        7,
        Some(3),
        vec![entry(4, "a"), entry(7, "b")],
    );
    node.handle_append_entries(append(7, 2, 7, vec![], 1));
    node.take_persistence();
    let log = node.log.clone();
    for n in 1..5 {
        assert!(node.tick().is_empty());
        assert_eq!(node.ticks_since_last_heartbeat, n);
    }
    let actions = node.tick();
    assert_eq!(node.state, RaftState::Candidate);
    assert_eq!(node.current_term, 8);
    assert_eq!(node.voted_for, Some(2));
    assert_eq!(node.votes_received, std::collections::HashSet::from([2]));
    assert_eq!(node.leader_id, None);
    assert_eq!(node.ticks_since_last_heartbeat, 0);
    assert_eq!(node.log, log);
    assert_eq!(node.commit_index, 1);
    let request = |target: u64| Action::SendMessage {
        target,
        message: Message::RequestVote(vote(8, 2, 2, 7)),
    };
    let expected = vec![
        Action::PersistMetadata {
            term: 8,
            voted_for: Some(2),
        },
        request(1),
        request(3),
    ];
    assert_eq!(format!("{actions:?}"), format!("{expected:?}"));
}

#[test]
fn clocks_that_count_to_nothing_are_due_at_once() {
    let mut node = RaftCore::new(1, &[1, 2], Some(0), 0..1);
    node.tick();
    assert_eq!(node.state, RaftState::Candidate);
    node.handle_request_vote_response(RequestVoteResponseRPC {
        id: 2,
        term: 1,
        vote_granted: true,
    });
    assert!(node.is_leader());
    assert_eq!(node.tick().len(), 1);
    assert_eq!(node.tick().len(), 1);
}

#[test]
fn the_longest_timeout_and_interval_can_be_counted_to() {
    let mut node = RaftCore::new(1, &[1, 2], Some(u64::MAX), u64::MAX - 1..u64::MAX);
    node.ticks_since_last_heartbeat = u64::MAX - 3;
    assert!(node.tick().is_empty());
    assert_eq!(node.tick().len(), 2);
    assert_eq!(node.state, RaftState::Candidate);
    node.handle_request_vote_response(RequestVoteResponseRPC {
        id: 2,
        term: 1,
        vote_granted: true,
    });
    node.ticks_since_last_heartbeat = u64::MAX - 2;
    assert!(node.tick().is_empty());
    assert!(node.can_tick());
    assert_eq!(node.tick().len(), 1);
    assert_eq!(node.ticks_since_last_heartbeat, 0);
}

#[test]
fn a_peer_with_the_whole_log_gets_a_bare_heartbeat() {
    let mut node = leader_of_three();
    node.next_index.insert(2, 2);
    node.next_index.insert(3, 1);
    let log = node.log.clone();
    for _ in 1..node.heartbeat_interval {
        assert!(node.tick().is_empty());
    }
    let actions = node.tick();
    let heartbeat = |target: u64, prev_log_index: u64, prev_log_term: u64, entries| {
        Action::SendMessage {
            target,
            message: Message::AppendEntries(AppendEntriesRPC {
                term: 1,
                leader_id: 1,
                prev_log_index,
                prev_log_term,
                entries,
                leader_commit: 0,
            }),
        }
    };
    let expected = vec![
        heartbeat(2, 1, 1, vec![]),
        heartbeat(3, 0, 0, vec![entry(1, "")]),
    ];
    assert_eq!(format!("{actions:?}"), format!("{expected:?}"));
    assert_eq!(node.ticks_since_last_heartbeat, 0);
    assert_eq!(node.current_term, 1);
    assert_eq!(node.log, log);
    assert!(node.is_leader());
}

#[test]
fn nodes_without_a_choice_of_timeouts_do_the_same() {
    let run = || {
        let mut node = RaftCore::new(1, &[1, 2, 3], None, 9..10);
        let mut steps: Vec<String> = Vec::new();
        for _ in 0..9 {
            steps.push(format!("{:?}", node.tick()));
        }
        steps.push(format!(
            "{:?}",
            node.handle_request_vote_response(RequestVoteResponseRPC {
                id: 3,
                term: 1,
                vote_granted: true,
            })
        ));
        steps.push(format!("{:?}", node.propose(b"x".to_vec())));
        steps.push(format!("{:?}", node.request_read_barrier()));
        steps.push(format!("{:?}", node.take_persistence()));
        steps.push(format!("{:?}", node.handle_request_vote(vote(5, 2, 9, 4))));
        steps.push(format!(
            "{:?}",
            node.handle_append_entries(append(6, 1, 1, vec![entry(6, "y")], 2))
        ));
        steps.push(format!("{:?}", node.take_persistence()));
        for _ in 0..9 {
            steps.push(format!("{:?}", node.tick()));
        }
        (
            steps,
            node.state,
            node.current_term,
            node.voted_for,
            node.log,
            node.commit_index,
            node.election_timeout,
        )
    };
    assert_eq!(run(), run());
    assert_eq!(run().2, 7);
}

#[test]
fn a_request_that_comes_again_is_only_answered() {
    let mut node = RaftCore::restore(
        1,
        &[1, 2, 3],
        None,
        15..31,
        1,
        None,
        vec![entry(1, "a"), entry(1, "old")],
    );
    let request = || append(2, 1, 1, vec![entry(2, "b"), entry(2, "c")], 2);
    let first = node.handle_append_entries(request());
    assert_eq!(first.len(), 3);
    assert!(accepted(&first));
    for _ in 0..2 {
        let log = node.log.clone();
        let pending = node.unsaved_from;
        let again = node.handle_append_entries(request());
        assert_eq!(again.len(), 1);
        assert_eq!(format!("{:?}", again[0]), format!("{:?}", first[2]));
        assert_eq!(node.log, log);
        assert_eq!(node.unsaved_from, pending);
        assert_eq!(node.commit_index, 2);
        assert_eq!(node.last_applied, 2);
        assert_eq!(node.current_term, 2);
        assert_eq!(node.voted_for, None);
        assert_eq!(node.state, RaftState::Follower);
        node.take_persistence();
    }
}

#[test]
fn an_installed_snapshot_keeps_the_entries_after_it() {
    let mut node = RaftCore::new(1, &[1, 2, 3], None, 15..31);
    let entries: Vec<LogEntry> = ["a", "b", "c", "d", "e"].map(|text| entry(1, text)).to_vec();
    assert!(accepted(&node.handle_append_entries(append(1, 0, 0, entries, 0))));
    node.take_persistence();
    let actions = node.handle_install_snapshot(InstallSnapshotRPC {
        term: 1,
        leader_id: 2,
        last_included_index: 3,
        last_included_term: 1,
        data: b"abc".to_vec(),
    });
    assert_eq!(actions.len(), 3);
    assert!(matches!(
        actions[0],
        Action::InstallSnapshot {
            last_included_index: 3,
            last_included_term: 1,
            ..
        }
    ));
    match &actions[1] {
        Action::PersistLogEntries {
            start_index,
            entries,
        } => {
            assert_eq!(*start_index, 4);
            assert_eq!(*entries, vec![entry(1, "d"), entry(1, "e")]);
        }
        other => panic!("{other:?}"),
    }
    assert_eq!(node.snapshot_index, 3);
    assert_eq!(node.commit_index, 3);
    assert_eq!(node.last_index(), 5);
    assert_eq!(node.log, vec![entry(1, ""), entry(1, "d"), entry(1, "e")]);
    assert!(node.take_persistence().is_empty());
    // what was acknowledged counts in an election
    assert!(!granted(&node.handle_request_vote(vote(2, 3, 3, 1))));
    assert!(granted(&node.handle_request_vote(vote(2, 2, 5, 1))));
}

#[test]
fn an_installed_snapshot_drops_a_log_that_does_not_agree() {
    let mut node = RaftCore::new(1, &[1, 2, 3], None, 15..31);
    let entries: Vec<LogEntry> = ["a", "b", "c", "d"].map(|text| entry(1, text)).to_vec();
    node.handle_append_entries(append(1, 0, 0, entries, 0));
    node.take_persistence();
    let actions = node.handle_install_snapshot(InstallSnapshotRPC {
        term: 3,
        leader_id: 2,
        last_included_index: 3,
        last_included_term: 2,
        data: vec![],
    });
    assert!(!actions
        .iter()
        .any(|action| matches!(action, Action::PersistLogEntries { .. })));
    assert_eq!(node.last_index(), 3);
    assert_eq!(node.log, vec![entry(2, "")]);
}
