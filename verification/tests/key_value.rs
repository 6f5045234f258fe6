//! The key-value store and how its nodes find their place.

use ferris_ferry::config::ProposalError;
use ferris_ferry::kv::{KvCommand, KvResponse, KvStore};
use ferris_ferry::kv_node::{
    advertised_port, build_config, delete_command, get_response, http_addresses, id_from_hostname,
    id_is_valid, map_proposal_error, resolve_id, set_command, AddressError, KvError, SetRequest,
};
use ferris_ferry::statemachine::StateMachine;
use ferris_ferry::text::{parse_number, push_decimal};
use ferris_ferry::types::{
    AppendEntriesRPC, AppendEntriesResponseRPC, InstallSnapshotRPC, InstallSnapshotResponseRPC,
    LogEntry, Message, RequestVoteRPC, RequestVoteResponseRPC,
};
use std::collections::HashMap;

#[test]
fn test_id_from_hostname() {
    assert_eq!(id_from_hostname("raft-kv-0"), Ok(1));
    assert_eq!(
        id_from_hostname("raft-kv-7d9f-x2k302"),
        Err("Invalid number for hostname: x2k302".to_string())
    );
    assert_eq!(
        id_from_hostname("localhost"),
        Err("Hostname localhost has no final '-' with ID number".to_string())
    );
}

#[test]
fn hostnames_at_the_limits() {
    assert_eq!(id_from_hostname("n-18446744073709551614"), Ok(u64::MAX));
    assert_eq!(
        id_from_hostname("n-18446744073709551615"),
        Err(
            "18446744073709551615 is not a valid number (try using something < 2^64)".to_string()
        )
    );
    assert_eq!(
        id_from_hostname("n-18446744073709551616"),
        Err("Invalid number for hostname: 18446744073709551616".to_string())
    );
    assert_eq!(id_from_hostname("n-+7"), Ok(8));
    assert_eq!(id_from_hostname("-007"), Ok(8));
    assert_eq!(
        id_from_hostname("n-"),
        Err("Invalid number for hostname: ".to_string())
    );
    assert_eq!(
        id_from_hostname("h\u{e9}-1\u{661}"),
        Err("Invalid number for hostname: 1\u{661}".to_string())
    );
}

#[test]
fn ids_are_given_or_derived() {
    assert_eq!(resolve_id(Some(3), false, None), Ok(3));
    assert_eq!(
        resolve_id(None, true, Some("raft-node-1".to_string())),
        Ok(2)
    );
    assert_eq!(
        resolve_id(None, true, None),
        Err("Attempted to derive node ID but HOSTNAME variable not set.".to_string())
    );
    assert!(!id_is_valid(0, 3));
    assert!(id_is_valid(1, 3));
    assert!(id_is_valid(3, 3));
    assert!(!id_is_valid(4, 3));
}

#[test]
fn numbers_as_text() {
    for text in ["0", "7", "10", "65535", "18446744073709551615"] {
        let number = parse_number(text).unwrap();
        assert_eq!(text.parse::<u64>().unwrap(), number);
        let mut back = String::from("n=");
        push_decimal(&mut back, number);
        assert_eq!(back, format!("n={text}"));
    }
    for text in ["", "+", "-1", " 1", "1 ", "0x1", "++1", "18446744073709551616"] {
        assert_eq!(parse_number(text), None);
        assert!(text.parse::<u64>().is_err());
    }
    assert_eq!(parse_number("+12"), Some(12));
}

fn strings(texts: &[&str]) -> Vec<String> {
    texts.iter().map(|text| text.to_string()).collect()
}

#[test]
fn http_addresses_are_given_or_share_the_port() {
    let nodes = strings(&["10.0.0.1:9001", "host:9002"]);
    let shared = http_addresses(&nodes, &None, 3000).unwrap();
    assert_eq!(shared.len(), 2);
    assert_eq!(shared[&1], "10.0.0.1:3000");
    assert_eq!(shared[&2], "host:3000");

    let given = Some(strings(&["a:1", "b:2"]));
    let given = http_addresses(&nodes, &given, 3000).unwrap();
    assert_eq!(given[&1], "a:1");
    assert_eq!(given[&2], "b:2");

    assert_eq!(
        http_addresses(&nodes, &Some(strings(&["a:1"])), 3000),
        Err(AddressError::CountMismatch)
    );
    assert_eq!(
        http_addresses(&strings(&["nowhere"]), &None, 3000),
        Err(AddressError::InvalidRaftAddress)
    );
}

#[test]
fn advertised_ports() {
    assert_eq!(advertised_port("127.0.0.1:9001"), Ok(9001));
    assert_eq!(advertised_port("[::1]:65535"), Ok(65535));
    assert_eq!(advertised_port("h:65536"), Err(AddressError::InvalidPort));
    assert_eq!(advertised_port("h:"), Err(AddressError::InvalidPort));
    assert_eq!(
        advertised_port("h"),
        Err(AddressError::InvalidNodeAddress)
    );
    assert_eq!(
        AddressError::CountMismatch.text(),
        "Number of Raft nodes and HTTP nodes for KV service don't match. Check your config"
    );
    assert_eq!(
        AddressError::InvalidRaftAddress.text(),
        "Invalid address for Raft node"
    );
    assert_eq!(AddressError::InvalidNodeAddress.text(), "Invalid node address");
    assert_eq!(
        AddressError::InvalidPort.text(),
        "Invalid port number for advertised address"
    );
}

#[test]
fn the_setup_of_a_node() {
    let config = build_config(2, &strings(&["a:1", "b:2", "c:3"]));
    assert_eq!(config.id, 2);
    assert_eq!(config.node_ids(), vec![1, 2, 3]);
    assert_eq!(config.nodes[2].address, "c:3");
    assert_eq!(config.heartbeat_interval, None);
    assert_eq!(config.election_range, 15..31);
    assert_eq!(config.tick_length, 10);
    assert_eq!(config.snapshot_threshold, 1024);
}

#[test]
fn failed_proposals_as_http() {
    let addresses = HashMap::from([(2, "10.0.0.2:3000".to_string())]);
    let follower = |leader| ProposalError::FollowerNode { leader };
    let redirect = map_proposal_error(follower(Some(2)), &addresses, "/key/a").answer();
    assert_eq!(redirect.status, 307);
    assert_eq!(
        redirect.location,
        Some("http://10.0.0.2:3000/key/a".to_string())
    );
    assert_eq!(redirect.retry_after, None);

    for error in [
        follower(Some(3)),
        follower(None),
        ProposalError::LostLeadership,
    ] {
        let answer = map_proposal_error(error, &addresses, "/key/a").answer();
        assert_eq!(answer.status, 503);
        assert_eq!(answer.location, None);
        assert_eq!(answer.retry_after, Some("1"));
    }
    assert!(matches!(
        map_proposal_error(ProposalError::LostLeadership, &addresses, "/"),
        KvError::Uncertain
    ));
    assert!(matches!(
        map_proposal_error(follower(None), &addresses, "/"),
        KvError::NoLeader
    ));
    let internal = map_proposal_error(ProposalError::OtherError, &addresses, "/").answer();
    assert_eq!(internal.status, 500);
    assert_eq!(internal.location, None);
    assert_eq!(internal.retry_after, None);
}

#[test]
fn proposal_errors_in_words() {
    assert_eq!(
        ProposalError::FollowerNode { leader: None }.text(),
        "Node is not the leader and cannot propose commands"
    );
    assert_eq!(
        ProposalError::LostLeadership.text(),
        "Node lost its status as leader and cannot propose commands anymore"
    );
    assert_eq!(ProposalError::OtherError.text(), "An unknown error occurred");
}

#[test]
fn commands_in_binary() {
    let set = set_command(SetRequest {
        key: "hello".to_string(),
        value: "world".to_string(),
    })
    .unwrap();
    let mut expected = vec![1, 5];
    expected.extend("hello".as_bytes());
    expected.push(5);
    expected.extend("world".as_bytes());
    assert_eq!(set, expected);
    match KvCommand::decode(&set) {
        Some(KvCommand::Put(key, value)) => {
            assert_eq!(key, "hello");
            assert_eq!(value, "world");
        }
        other => panic!("{other:?}"),
    }

    let delete = delete_command("\u{fc}".to_string()).unwrap();
    assert_eq!(delete, vec![2, 2, 0xc3, 0xbc]);
    assert!(matches!(
        KvCommand::decode(&delete),
        Some(KvCommand::Delete(key)) if key == "\u{fc}"
    ));

    let get = KvCommand::Get("k".to_string()).encode().unwrap();
    assert_eq!(get, vec![0, 1, b'k']);
    assert!(matches!(
        KvCommand::decode(&get),
        Some(KvCommand::Get(key)) if key == "k"
    ));

    // an unknown variant, a cut value, a key that is no text, nothing at all
    assert!(KvCommand::decode(&[3, 1, b'k']).is_none());
    assert!(KvCommand::decode(&set[..set.len() - 1]).is_none());
    assert!(KvCommand::decode(&[2, 1, 0xff]).is_none());
    assert!(KvCommand::decode(&[]).is_none());
}

#[test]
fn the_store_applies_commands() {
    let mut store = KvStore::new();
    let put = |key: &str, value: &str| KvCommand::Put(key.to_string(), value.to_string());
    assert_eq!(store.apply(put("a", "1")), KvResponse::Done);
    assert_eq!(store.apply(put("b", "2")), KvResponse::Done);
    assert_eq!(store.apply(put("a", "3")), KvResponse::Done);
    assert_eq!(
        store.apply(KvCommand::Get("a".to_string())),
        KvResponse::Value(Some("3".to_string()))
    );
    assert_eq!(store.get("b"), Some("2".to_string()));
    assert_eq!(get_response(&store, "b").value, Some("2".to_string()));
    store.apply(KvCommand::Delete("b".to_string()));
    assert_eq!(store.get("b"), None);
    store.apply(KvCommand::Delete("b".to_string()));
    assert_eq!(
        store.apply(KvCommand::Get("b".to_string())),
        KvResponse::Value(None)
    );
    assert_eq!(get_response(&store, "b").value, None);
}

#[test]
fn replicated_commands_that_cannot_be_read_are_passed_over() {
    let mut store = KvStore::new();
    store.apply_bytes(&[1, 1, b'a', 1, b'1']);
    store.apply_bytes(&[9, 9, 9]);
    store.apply_bytes("Hello, Raft".as_bytes());
    assert_eq!(store.get("a"), Some("1".to_string()));
    store.apply_bytes(&[2, 1, b'a']);
    assert_eq!(store.get("a"), None);
}

#[test]
fn a_snapshot_takes_the_place_of_the_commands_before_it() {
    let mut store = KvStore::new();
    for i in 0..20 {
        store.apply(KvCommand::Put(format!("key{}", i % 7), format!("value{i}")));
    }
    store.apply(KvCommand::Delete("key3".to_string()));
    let bytes = store.snapshot().unwrap();

    let mut other = KvStore::new();
    other.apply(KvCommand::Put("gone".to_string(), "x".to_string()));
    assert!(other.restore(&bytes));
    assert_eq!(other.get("gone"), None);
    for i in 0..7 {
        assert_eq!(
            other.get(&format!("key{i}")),
            store.get(&format!("key{i}"))
        );
    }

    // the commands after the snapshot lead to the same store
    for bytes in [&[1u8, 1, b'k', 1, b'v'][..], &[2, 4, b'k', b'e', b'y', b'1'], &[9]] {
        store.apply_bytes(bytes);
        other.apply_bytes(bytes);
    }
    assert_eq!(other.get("k"), Some("v".to_string()));
    assert_eq!(other.get("key1"), None);
    assert_eq!(store.get("k"), other.get("k"));
    assert_eq!(store.get("key1"), other.get("key1"));

    // a state that cannot be read changes nothing
    assert!(!other.restore(&[0xff]));
    assert_eq!(other.get("key0"), store.get("key0"));

    // of two values for a key the later one counts
    assert!(other.restore(&[2, 1, b'k', 1, b'1', 1, b'k', 1, b'2']));
    assert_eq!(other.get("k"), Some("2".to_string()));
    assert_eq!(KvStore::new().snapshot(), Some(vec![0]));
}

#[test]
fn messages_in_words() {
    let vote = Message::RequestVote(RequestVoteRPC {
        term: 12,
        candidate_id: 3,
        last_log_index: 0,
        last_log_term: 0,
    });
    assert_eq!(vote.text(), "RequestVote(candidate=3, term=12)");
    let answer = Message::RequestVoteResponse(RequestVoteResponseRPC {
        id: 1,
        term: 2,
        vote_granted: true,
    });
    assert_eq!(answer.text(), "RequestVoteResponse(id=1,term=2,vote=true)");
    let append = Message::AppendEntries(AppendEntriesRPC {
        term: 4,
        leader_id: 1,
        prev_log_index: 0,
        prev_log_term: 0,
        entries: vec![LogEntry {
            term: 4,
            command: vec![],
        }],
        leader_commit: 0,
    });
    assert_eq!(append.text(), "AppendEntries(leader=1,term=4,num_entries=1)");
    let appended = Message::AppendEntriesResponse(AppendEntriesResponseRPC {
        id: 5,
        term: 4,
        match_index: 1,
        success: false,
        first_conflicting_index: None,
        first_conflicting_term: None,
    });
    assert_eq!(appended.text(), "AppendEntriesResponse(id=5,success=false)");
    let snapshot = Message::InstallSnapshot(InstallSnapshotRPC {
        term: 4,
        leader_id: 10,
        last_included_index: 0,
        last_included_term: 0,
        data: vec![],
    });
    assert_eq!(snapshot.text(), "InstallSnapshot(leader_id=10)");
    let installed = Message::InstallSnapshotResponse(InstallSnapshotResponseRPC {
        id: 20,
        term: 4,
        last_included_index: 0,
    });
    assert_eq!(installed.text(), "InstallSnapshotResponse(id=20)");
}
