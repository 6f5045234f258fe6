//! Whole clusters: drivers, storage in memory, and messages handed over one by one.

use ferris_ferry::config::{
    PersistedLogAddendum, PersistedMetadata, ProposalError, RaftConfig, RaftNodeDescription,
    Snapshot,
};
use ferris_ferry::driver::{snapshot_message, Effect, RaftDriver};
use ferris_ferry::storage::{InMemoryStorage, Storage};
use ferris_ferry::types::{
    AppendEntriesRPC, AppendEntriesResponseRPC, InstallSnapshotRPC, LogEntry, Message, NodeId,
    RaftState, RequestVoteRPC,
};
use std::collections::{BTreeMap, VecDeque};

/// What an application gets to see.
#[derive(Debug, PartialEq)]
enum AppliedEntry {
    Command(Vec<u8>),
    Snapshot(Vec<u8>),
}

/// A node with its storage and an application that keeps all commands.
struct Node {
    driver: RaftDriver,
    storage: InMemoryStorage,
    applied: VecDeque<AppliedEntry>,
    state: Vec<Vec<u8>>,
    replies: Vec<(u64, Result<(), ProposalError>)>,
    /// The kinds of effects, in the order in which they were carried out.
    trace: Vec<&'static str>,
    requests: Vec<u64>,
}

fn config(id: NodeId, count: u64, snapshot_threshold: usize) -> RaftConfig<u64> {
    RaftConfig {
        id,
        nodes: (1..=count)
            .map(|id| RaftNodeDescription { id, address: id })
            .collect(),
        heartbeat_interval: None,
        election_range: 15..31,
        tick_length: 10,
        snapshot_threshold,
    }
}

impl Node {
    fn start(config: &RaftConfig<u64>, storage: InMemoryStorage) -> Node {
        let snapshot = storage.restore_snapshot().expect("snapshot");
        let metadata = storage.restore_metadata().expect("metadata");
        let entries = storage.restore_log_entries().expect("entries");
        assert!(snapshot.is_none() || (metadata.is_some() && entries.is_some()));
        Node {
            driver: RaftDriver::new(config, snapshot, metadata, entries),
            storage,
            applied: VecDeque::new(),
            state: Vec::new(),
            replies: Vec::new(),
            trace: Vec::new(),
            requests: Vec::new(),
        }
    }

    fn perform(&mut self, effects: Vec<Effect>, network: &mut VecDeque<(NodeId, Message)>) {
        for effect in effects {
            match effect {
                Effect::Send { target, message } => {
                    self.trace.push("send");
                    network.push_back((target, message));
                }
                Effect::SendSnapshot {
                    target,
                    term,
                    leader_id,
                    last_included_index,
                    last_included_term,
                } => {
                    self.trace.push("send snapshot");
                    let data = self.storage.retrieve_snapshot_bytes().expect("snapshot");
                    network.push_back((
                        target,
                        snapshot_message(
                            term,
                            leader_id,
                            last_included_index,
                            last_included_term,
                            data,
                        ),
                    ));
                }
                Effect::StoreMetadata(metadata) => {
                    self.trace.push("metadata");
                    self.storage.store_metadata(metadata).expect("store");
                }
                Effect::StoreLogEntries(addendum) => {
                    self.trace.push("log");
                    self.storage.store_log_entries(addendum).expect("store");
                }
                Effect::StoreSnapshot(snapshot) => {
                    self.trace.push("snapshot");
                    self.storage.store_snapshot(snapshot).expect("store");
                }
                Effect::TruncateLog => {
                    self.trace.push("truncate");
                    self.storage.truncate_log().expect("truncate");
                }
                Effect::DeliverCommand(command) => {
                    self.trace.push("command");
                    self.state.push(command.clone());
                    self.applied.push_back(AppliedEntry::Command(command));
                }
                Effect::DeliverSnapshot(data) => {
                    self.trace.push("restore");
                    self.state = data
                        .split(|byte| *byte == b'/')
                        .map(|part| part.to_vec())
                        .collect();
                    self.applied.push_back(AppliedEntry::Snapshot(data));
                }
                Effect::RequestSnapshot { index } => {
                    self.trace.push("request");
                    self.requests.push(index);
                    assert!(self.driver.core.can_compact(index));
                    let data = self.state.join(&b'/');
                    let effects = self.driver.snapshot_taken(index, data);
                    self.perform(effects, network);
                }
                Effect::Reply { ticket, result } => {
                    self.trace.push("reply");
                    self.replies.push((ticket, result));
                }
            }
        }
    }

    fn carry_out(
        &mut self,
        actions: Vec<ferris_ferry::types::Action>,
        network: &mut VecDeque<(NodeId, Message)>,
    ) {
        for action in actions {
            let effects = self.driver.handle_action(action);
            self.perform(effects, network);
        }
    }

    fn tick(&mut self, network: &mut VecDeque<(NodeId, Message)>) {
        assert!(self.driver.core.can_tick());
        let actions = self.driver.tick();
        self.carry_out(actions, network);
    }

    fn receive(&mut self, message: Message, network: &mut VecDeque<(NodeId, Message)>) {
        assert!(self.driver.core.can_take(&message));
        let received = self.driver.handle_message(message);
        self.perform(received.refusals, network);
        self.carry_out(received.actions, network);
    }

    fn propose(
        &mut self,
        command: &str,
        ticket: u64,
        network: &mut VecDeque<(NodeId, Message)>,
    ) -> Result<(), ProposalError> {
        let actions = self.driver.propose(command.into(), ticket)?;
        self.carry_out(actions, network);
        Ok(())
    }

    fn read(
        &mut self,
        ticket: u64,
        network: &mut VecDeque<(NodeId, Message)>,
    ) -> Result<(), ProposalError> {
        let actions = self.driver.read_request(ticket)?;
        self.carry_out(actions, network);
        Ok(())
    }
}

/// The nodes by id, and the messages on their way.
struct Cluster {
    nodes: BTreeMap<NodeId, Node>,
    network: VecDeque<(NodeId, Message)>,
    /// A node that nothing reaches, and from which nothing comes.
    cut: Option<NodeId>,
}

impl Cluster {
    fn fresh(count: u64, snapshot_threshold: usize) -> Cluster {
        let nodes = (1..=count)
            .map(|id| {
                let config = config(id, count, snapshot_threshold);
                (id, Node::start(&config, InMemoryStorage::new()))
            })
            .collect();
        Cluster {
            nodes,
            network: VecDeque::new(),
            cut: None,
        }
    }

    fn deliver_all(&mut self) {
        while let Some((target, message)) = self.network.pop_front() {
            if self.cut == Some(target) {
                continue;
            }
            if let Some(node) = self.nodes.get_mut(&target) {
                node.receive(message, &mut self.network);
            }
        }
    }

    fn tick(&mut self, id: NodeId) {
        let node = self.nodes.get_mut(&id).unwrap();
        if self.cut == Some(id) {
            node.tick(&mut VecDeque::new());
        } else {
            node.tick(&mut self.network);
        }
    }

    fn propose(&mut self, id: NodeId, command: &str, ticket: u64) -> Result<(), ProposalError> {
        let node = self.nodes.get_mut(&id).unwrap();
        if self.cut == Some(id) {
            node.propose(command, ticket, &mut VecDeque::new())
        } else {
            node.propose(command, ticket, &mut self.network)
        }
    }

    fn read(&mut self, id: NodeId, ticket: u64) -> Result<(), ProposalError> {
        let node = self.nodes.get_mut(&id).unwrap();
        node.read(ticket, &mut self.network)
    }

    fn receive(&mut self, id: NodeId, message: Message) {
        let node = self.nodes.get_mut(&id).unwrap();
        node.receive(message, &mut self.network);
    }

    /// One tick on every node, with all messages delivered after each.
    fn tick_all(&mut self) {
        let ids: Vec<NodeId> = self.nodes.keys().copied().collect();
        for id in ids {
            self.tick(id);
            self.deliver_all();
        }
    }

    fn leader(&self) -> Option<NodeId> {
        self.nodes
            .iter()
            .find(|(_, node)| node.driver.core.is_leader())
            .map(|(id, _)| *id)
    }

    fn elect(&mut self) -> NodeId {
        for _ in 0..1000 {
            if let Some(id) = self.leader() {
                return id;
            }
            self.tick_all();
        }
        panic!("no leader");
    }

    /// Starts a node anew from what it has stored. Its application takes over the snapshot.
    fn restart(&mut self, id: NodeId, snapshot_threshold: usize) {
        let storage = self.nodes.remove(&id).unwrap().storage;
        let count = self.nodes.len() as u64 + 1;
        let mut node = Node::start(&config(id, count, snapshot_threshold), storage);
        if let Ok(data) = node.storage.retrieve_snapshot_bytes() {
            node.state = data
                .split(|byte| *byte == b'/')
                .map(|part| part.to_vec())
                .collect();
        }
        self.nodes.insert(id, node);
    }

    /// Ticks until every node has applied so many commands.
    fn run_until_applied(&mut self, count: usize) {
        for _ in 0..1000 {
            if self.nodes.values().all(|node| node.state.len() >= count) {
                return;
            }
            self.tick_all();
        }
        panic!("not applied");
    }
}

#[test]
fn basic_cluster() {
    // since we successfully propose a command, each node should get an applied entry
    let mut cluster = Cluster::fresh(3, 100);
    let leader = cluster.elect();
    for id in 1..=3 {
        if id != leader {
            assert_eq!(
                cluster.propose(id, "Hello, Raft", 1),
                Err(ProposalError::FollowerNode {
                    leader: Some(leader)
                })
            );
        }
    }
    cluster.propose(leader, "Hello, Raft", 7).unwrap();
    cluster.run_until_applied(1);
    for node in cluster.nodes.values_mut() {
        match node.applied.pop_front().unwrap() {
            AppliedEntry::Command(cmd) => assert_eq!(cmd, "Hello, Raft".as_bytes().to_vec()),
            AppliedEntry::Snapshot(_) => panic!("Unexpected Snapshot on applied entry"),
        }
    }
    assert_eq!(cluster.nodes[&leader].replies, vec![(7, Ok(()))]);
}

#[test]
fn cluster_with_snapshot() {
    // fill a storage and check that a node starts up from it correctly
    let mut s = InMemoryStorage::new();
    let _ = s.store_metadata(PersistedMetadata {
        term: 2,
        voted_for: None,
    });
    let _ = s.store_log_entries(PersistedLogAddendum {
        start_index: 3,
        entries: vec![LogEntry {
            term: 1,
            command: "CMD3".as_bytes().to_vec(),
        }],
    });
    let _ = s.store_snapshot(Snapshot {
        last_included_index: 2,
        last_included_term: 1,
        data: "CMD1/CMD2".as_bytes().to_vec(),
    });

    let mut cluster = Cluster {
        nodes: BTreeMap::from([
            (1, Node::start(&config(1, 2, 100), s)),
            (2, Node::start(&config(2, 2, 100), InMemoryStorage::new())),
        ]),
        network: VecDeque::new(),
        cut: None,
    };
    assert_eq!(cluster.nodes[&1].driver.core.current_term, 2);
    assert_eq!(cluster.nodes[&1].driver.core.last_index(), 3);

    // need to have a snapshot to install first
    for _ in 0..1000 {
        if !cluster.nodes[&2].applied.is_empty() {
            break;
        }
        cluster.tick_all();
    }
    assert_eq!(
        cluster.nodes.get_mut(&2).unwrap().applied.pop_front(),
        Some(AppliedEntry::Snapshot("CMD1/CMD2".as_bytes().to_vec()))
    );

    // now propose a new command through node 1, which is the only one that can lead
    assert_eq!(cluster.leader(), Some(1));
    cluster.propose(1, "Hello, Raft", 1).unwrap();

    // expect two commands (CMD3 and Hello, Raft) to come out on both nodes
    for _ in 0..1000 {
        if cluster.nodes.values().all(|node| node.applied.len() >= 2) {
            break;
        }
        cluster.tick_all();
    }
    for node in cluster.nodes.values_mut() {
        assert_eq!(
            node.applied.pop_front(),
            Some(AppliedEntry::Command("CMD3".as_bytes().to_vec()))
        );
        assert_eq!(
            node.applied.pop_front(),
            Some(AppliedEntry::Command("Hello, Raft".as_bytes().to_vec()))
        );
    }
}

#[test]
fn half_of_an_even_cluster_commits_nothing() {
    let mut cluster = Cluster::fresh(4, 100);
    let leader = cluster.elect();
    cluster.deliver_all();
    for _ in 0..20 {
        cluster.tick_all();
    }
    let committed = cluster.nodes[&leader].driver.core.commit_index;
    cluster.propose(leader, "X", 1).unwrap();
    while cluster.network.is_empty() {
        cluster.tick(leader);
    }
    let appends: Vec<(NodeId, Message)> = cluster.network.drain(..).collect();
    assert_eq!(appends.len(), 3);

    // one follower of three: two copies of four
    let mut appends = appends.into_iter();
    let (first, message) = appends.next().unwrap();
    cluster.receive(first, message);
    cluster.deliver_all();
    assert_eq!(cluster.nodes[&leader].driver.core.commit_index, committed);
    assert!(cluster.nodes[&leader].replies.is_empty());

    // the second makes a majority
    let (second, message) = appends.next().unwrap();
    cluster.receive(second, message);
    cluster.deliver_all();
    assert_eq!(
        cluster.nodes[&leader].driver.core.commit_index,
        committed + 1
    );
    assert_eq!(cluster.nodes[&leader].replies, vec![(1, Ok(()))]);
    assert_eq!(cluster.nodes[&leader].state, vec![b"X".to_vec()]);
}

#[test]
fn storage_is_written_before_anything_is_sent() {
    let mut cluster = Cluster::fresh(3, 100);
    let leader = cluster.elect();
    cluster.deliver_all();
    // the candidate wrote its term and vote, then asked
    let trace = &cluster.nodes[&leader].trace;
    let stored = trace.iter().position(|kind| *kind == "metadata").unwrap();
    let sent = trace.iter().position(|kind| *kind == "send").unwrap();
    assert!(stored < sent);

    cluster.nodes.get_mut(&leader).unwrap().trace.clear();
    cluster.propose(leader, "X", 1).unwrap();
    assert_eq!(cluster.nodes[&leader].trace[0], "log");
    for id in 1..=3 {
        cluster.nodes.get_mut(&id).unwrap().trace.clear();
    }
    cluster.run_until_applied(1);
    for (id, node) in &cluster.nodes {
        if *id != leader {
            // the entry is written before it is acknowledged
            assert_eq!(node.trace[..2], ["log", "send"]);
        }
    }
}

#[test]
fn the_empty_entry_of_a_new_leader_is_not_delivered() {
    let mut cluster = Cluster::fresh(3, 100);
    let leader = cluster.elect();
    for _ in 0..30 {
        cluster.tick_all();
    }
    for node in cluster.nodes.values() {
        assert_eq!(node.driver.core.commit_index, 1);
        assert!(node.driver.core.log[1].command.is_empty());
        assert!(node.applied.is_empty());
    }
    assert!(cluster.nodes[&leader].replies.is_empty());
}

#[test]
fn a_read_waits_until_the_leader_has_proved_itself() {
    let mut cluster = Cluster::fresh(3, 100);
    let leader = cluster.elect();
    for _ in 0..30 {
        cluster.tick_all();
    }
    for id in 1..=3 {
        if id != leader {
            assert_eq!(
                cluster.read(id, 9),
                Err(ProposalError::FollowerNode {
                    leader: Some(leader)
                })
            );
        }
    }
    cluster.read(leader, 9).unwrap();
    assert!(cluster.nodes[&leader].replies.is_empty());

    // no answers arrive: the read is not answered either
    for _ in 0..20 {
        cluster.tick(leader);
        cluster.network.clear();
    }
    assert!(cluster.nodes[&leader].replies.is_empty());

    for _ in 0..20 {
        cluster.tick(leader);
        cluster.deliver_all();
    }
    assert_eq!(cluster.nodes[&leader].replies, vec![(9, Ok(()))]);
}

#[test]
fn a_node_that_does_not_know_a_leader_says_so() {
    let mut cluster = Cluster::fresh(3, 100);
    assert_eq!(
        cluster.propose(1, "X", 1),
        Err(ProposalError::FollowerNode { leader: None })
    );
    assert_eq!(
        cluster.read(2, 1),
        Err(ProposalError::FollowerNode { leader: None })
    );
}

#[test]
fn a_deposed_leader_refuses_all_that_wait() {
    let mut cluster = Cluster::fresh(3, 100);
    let leader = cluster.elect();
    cluster.deliver_all();
    let other = if leader == 1 { 2 } else { 1 };
    let term = cluster.nodes[&leader].driver.core.current_term;
    cluster.propose(leader, "X", 1).unwrap();
    cluster.propose(leader, "Y", 2).unwrap();
    cluster.read(leader, 3).unwrap();
    cluster.network.clear();

    cluster.receive(
        leader,
        Message::AppendEntries(AppendEntriesRPC {
            term: term + 1,
            leader_id: other,
            prev_log_index: 0,
            prev_log_term: 0,
            entries: vec![],
            leader_commit: 0,
        }),
    );
    let node = &cluster.nodes[&leader];
    assert_eq!(node.driver.core.state, RaftState::Follower);
    assert_eq!(node.driver.core.leader_id, Some(other));
    let mut replies = node.replies.clone();
    replies.sort_by_key(|(ticket, _)| *ticket);
    assert_eq!(
        replies,
        vec![
            (1, Err(ProposalError::LostLeadership)),
            (2, Err(ProposalError::LostLeadership)),
            (3, Err(ProposalError::LostLeadership)),
        ]
    );
    assert!(node.driver.pending_proposals.is_empty());
    assert!(node.driver.pending_reads.is_empty());
}

#[test]
fn a_deposed_leader_does_not_take_anothers_entry_for_its_own() {
    let mut cluster = Cluster::fresh(3, 100);
    let leader = cluster.elect();
    cluster.deliver_all();
    let other = if leader == 1 { 2 } else { 1 };
    let term = cluster.nodes[&leader].driver.core.current_term;
    let last = cluster.nodes[&leader].driver.core.last_index();
    cluster.propose(leader, "mine", 9).unwrap();
    cluster.read(leader, 10).unwrap();
    cluster.network.clear();

    // another leader has put its own command at the same index, and has it committed
    cluster.receive(
        leader,
        Message::AppendEntries(AppendEntriesRPC {
            term: term + 1,
            leader_id: other,
            prev_log_index: last,
            prev_log_term: term,
            entries: vec![LogEntry {
                term: term + 1,
                command: b"theirs".to_vec(),
            }],
            leader_commit: last + 1,
        }),
    );
    let node = &cluster.nodes[&leader];
    assert_eq!(node.state, vec![b"theirs".to_vec()]);
    let mut replies = node.replies.clone();
    replies.sort_by_key(|(ticket, _)| *ticket);
    assert_eq!(
        replies,
        vec![
            (9, Err(ProposalError::LostLeadership)),
            (10, Err(ProposalError::LostLeadership)),
        ]
    );
    // the clients are told before anything is applied
    let told = node.trace.iter().rposition(|step| *step == "reply");
    let applied = node.trace.iter().rposition(|step| *step == "command");
    assert!(told < applied);
}

#[test]
fn clients_wait_only_at_leaders_for_entries_that_are_not_applied() {
    let mut cluster = Cluster::fresh(3, 5);
    let mut proposed: BTreeMap<u64, String> = BTreeMap::new();
    for round in 0..600u64 {
        if round % 120 == 40 {
            cluster.cut = cluster.leader();
        } else if round % 120 == 100 {
            cluster.cut = None;
        }
        cluster.tick_all();
        let leaders: Vec<NodeId> = cluster
            .nodes
            .iter()
            .filter(|(_, node)| node.driver.core.is_leader())
            .map(|(id, _)| *id)
            .collect();
        for leader in leaders {
            let command = format!("{round} at {leader}");
            cluster.propose(leader, &command, round * 10 + leader).unwrap();
            proposed.insert(round * 10 + leader, command);
        }
        for node in cluster.nodes.values() {
            let core = &node.driver.core;
            for (index, ticket) in &node.driver.pending_proposals {
                assert!(core.is_leader());
                assert!(core.last_applied < *index && *index <= core.last_index());
                let entry = &core.log[(*index - core.snapshot_index) as usize];
                assert_eq!(entry.command, proposed[ticket].as_bytes());
            }
        }
    }
    // every client that heard of success has its command applied, once
    for node in cluster.nodes.values() {
        for (ticket, result) in &node.replies {
            let command = proposed[ticket].as_bytes().to_vec();
            let times = node
                .applied
                .iter()
                .filter(|entry| **entry == AppliedEntry::Command(command.clone()))
                .count();
            if result.is_ok() {
                assert_eq!(times, 1);
            }
        }
    }
}

#[test]
fn a_restart_leads_back_to_the_same_log() {
    let mut cluster = Cluster::fresh(3, 100);
    let leader = cluster.elect();
    for ticket in 0..5 {
        cluster
            .propose(leader, &format!("command {ticket}"), ticket)
            .unwrap();
    }
    cluster.run_until_applied(5);
    for id in 1..=3 {
        let before = cluster.nodes.remove(&id).unwrap();
        let old = before.driver.core;
        let after = Node::start(&config(id, 3, 100), before.storage);
        let new = &after.driver.core;
        assert_eq!(new.current_term, old.current_term);
        assert_eq!(new.voted_for, old.voted_for);
        assert_eq!(new.log, old.log);
        assert_eq!(new.snapshot_index, old.snapshot_index);
        assert_eq!(new.state, RaftState::Follower);
        assert_eq!(new.commit_index, 0);
        cluster.nodes.insert(id, after);
    }
    // the cluster goes on, and applies the whole log again
    let leader = cluster.elect();
    cluster.propose(leader, "command 5", 5).unwrap();
    cluster.run_until_applied(6);
    for node in cluster.nodes.values() {
        for (i, command) in node.state.iter().enumerate() {
            assert_eq!(*command, format!("command {i}").into_bytes());
        }
    }
}

#[test]
fn a_snapshot_is_taken_after_so_many_commands() {
    let mut cluster = Cluster::fresh(3, 3);
    let leader = cluster.elect();
    for ticket in 0..7 {
        cluster.propose(leader, &format!("c{ticket}"), ticket).unwrap();
    }
    cluster.run_until_applied(7);
    for node in cluster.nodes.values() {
        // the no-op is entry 1, the commands follow
        assert_eq!(node.requests, vec![4, 7]);
        assert_eq!(node.driver.core.snapshot_index, 7);
        assert_eq!(node.driver.num_entries, 1);
        let stored = node.storage.restore_snapshot().unwrap().unwrap();
        assert_eq!(stored.last_included_index, 7);
        assert_eq!(stored.data, b"c0/c1/c2/c3/c4/c5".to_vec());
        // what came after it is still in the stored log
        assert_eq!(
            node.storage.restore_log_entries().unwrap().unwrap(),
            node.driver.core.log[1..].to_vec()
        );
        assert_eq!(node.driver.core.log[1].command, b"c6".to_vec());
    }
}

#[test]
fn a_restart_from_a_snapshot_keeps_the_entries_after_it() {
    let mut cluster = Cluster::fresh(3, 3);
    let leader = cluster.elect();
    for ticket in 0..4 {
        cluster.propose(leader, &format!("c{ticket}"), ticket).unwrap();
    }
    cluster.run_until_applied(4);
    let before = cluster.nodes.remove(&leader).unwrap();
    let old = before.driver.core;
    let after = Node::start(&config(leader, 3, 3), before.storage);
    assert_eq!(after.driver.core.log, old.log);
    assert_eq!(after.driver.core.snapshot_index, old.snapshot_index);
    assert_eq!(after.driver.core.commit_index, old.snapshot_index);
    assert_eq!(after.driver.core.last_applied, old.snapshot_index);
    assert_eq!(after.driver.core.current_term, old.current_term);
}

#[test]
fn an_installed_snapshot_replaces_storage_and_state() {
    let mut cluster = Cluster::fresh(3, 100);
    cluster.receive(
        2,
        Message::InstallSnapshot(InstallSnapshotRPC {
            term: 4,
            leader_id: 1,
            last_included_index: 9,
            last_included_term: 3,
            data: b"a/b".to_vec(),
        }),
    );
    let node = &cluster.nodes[&2];
    assert_eq!(node.trace, ["metadata", "snapshot", "restore", "truncate", "send"]);
    assert_eq!(node.driver.core.snapshot_index, 9);
    assert_eq!(node.driver.core.commit_index, 9);
    assert_eq!(node.driver.core.current_term, 4);
    assert_eq!(node.state, vec![b"a".to_vec(), b"b".to_vec()]);
    assert_eq!(node.storage.retrieve_snapshot_bytes().unwrap(), b"a/b");
    assert_eq!(
        node.storage.restore_metadata().unwrap().unwrap(),
        PersistedMetadata {
            term: 4,
            voted_for: None
        }
    );
    match &cluster.network[0] {
        (1, Message::InstallSnapshotResponse(resp)) => {
            assert_eq!(resp.id, 2);
            assert_eq!(resp.term, 4);
            assert_eq!(resp.last_included_index, 9);
        }
        other => panic!("{other:?}"),
    }
}

#[test]
fn a_term_has_at_most_one_leader() {
    let mut leaders: BTreeMap<u64, NodeId> = BTreeMap::new();
    let mut cluster = Cluster::fresh(5, 4);
    let mut ticket = 0;
    let mut highest = 0;
    for round in 0..1500u64 {
        // every so often the leader is cut off for a while, and comes back as it is or with a
        // restart
        if round % 150 == 50 {
            cluster.cut = cluster.leader();
        } else if round % 150 == 0 {
            if let Some(id) = cluster.cut.take() {
                if round % 300 == 0 {
                    cluster.restart(id, 4);
                }
            }
        }
        cluster.tick_all();
        for (id, node) in &cluster.nodes {
            let core = &node.driver.core;
            assert!(core.last_applied <= core.commit_index);
            assert!(core.commit_index <= core.last_index());
            if core.is_leader() {
                let leader = *leaders.entry(core.current_term).or_insert(*id);
                assert_eq!(leader, *id);
                highest = highest.max(core.current_term);
            }
        }
        if round % 10 == 0 {
            // clients reach any leader, also one that is cut off
            let leaders: Vec<NodeId> = cluster
                .nodes
                .iter()
                .filter(|(_, node)| node.driver.core.is_leader())
                .map(|(id, _)| *id)
                .collect();
            for id in leaders {
                cluster.propose(id, &format!("{ticket}"), ticket).unwrap();
                ticket += 1;
            }
        }
        // what is applied agrees, entry by entry
        let longest = cluster
            .nodes
            .values()
            .max_by_key(|node| node.state.len())
            .unwrap();
        for node in cluster.nodes.values() {
            assert_eq!(node.state[..], longest.state[..node.state.len()]);
        }
    }
    assert!(highest > 1);
    assert!(leaders.len() > 1);
}

#[test]
fn answers_are_given_for_the_right_index() {
    let mut cluster = Cluster::fresh(3, 100);
    let leader = cluster.elect();
    cluster.propose(leader, "A", 100).unwrap();
    cluster.propose(leader, "B", 200).unwrap();
    assert_eq!(cluster.nodes[&leader].driver.pending_proposals[&2], 100);
    assert_eq!(cluster.nodes[&leader].driver.pending_proposals[&3], 200);
    cluster.run_until_applied(2);
    assert_eq!(
        cluster.nodes[&leader].replies,
        vec![(100, Ok(())), (200, Ok(()))]
    );
    assert!(cluster.nodes[&leader].driver.pending_proposals.is_empty());
}

#[test]
fn inputs_at_the_end_of_the_index_range_are_told_apart() {
    let mut cluster = Cluster::fresh(3, 100);
    let core = &mut cluster.nodes.get_mut(&1).unwrap().driver.core;
    assert!(core.can_tick());
    assert!(core.can_propose());
    assert!(core.has_room());
    assert!(core.can_take(&Message::RequestVote(RequestVoteRPC {
        term: 1,
        candidate_id: 2,
        last_log_index: 0,
        last_log_term: 0,
    })));
    assert!(core.can_compact(0));
    assert!(!core.can_compact(1));

    // a follower that is at the last term cannot start an election
    core.current_term = u64::MAX;
    core.ticks_since_last_heartbeat = core.election_timeout - 1;
    assert!(!core.can_tick());
}

#[test]
fn a_leader_steps_back_one_entry_at_a_time() {
    let mut cluster = Cluster::fresh(3, 100);
    let leader = cluster.elect();
    for ticket in 0..3 {
        cluster.propose(leader, "X", ticket).unwrap();
    }
    cluster.network.clear();
    let other = if leader == 1 { 2 } else { 1 };
    let core = &cluster.nodes[&leader].driver.core;
    let term = core.current_term;
    let next = core.next_index[&other];
    cluster
        .nodes
        .get_mut(&leader)
        .unwrap()
        .driver
        .core
        .next_index
        .insert(other, 4);
    assert!(next <= 5);
    cluster.receive(
        leader,
        Message::AppendEntriesResponse(AppendEntriesResponseRPC {
            id: other,
            term,
            match_index: 0,
            success: false,
            first_conflicting_index: None,
            first_conflicting_term: None,
        }),
    );
    assert_eq!(cluster.nodes[&leader].driver.core.next_index[&other], 3);
    match cluster.network.pop_front() {
        Some((target, Message::AppendEntries(req))) => {
            assert_eq!(target, other);
            assert_eq!(req.prev_log_index, 2);
            assert_eq!(req.entries.len(), 2);
        }
        other => panic!("{other:?}"),
    }
}

#[test]
fn terms_and_commits_only_rise_and_logs_match() {
    let mut cluster = Cluster::fresh(3, 5);
    let mut seen: BTreeMap<NodeId, (u64, u64, RaftState, u64)> = BTreeMap::new();
    let mut ticket = 0;
    for round in 0..600u64 {
        if round % 200 == 60 {
            cluster.cut = cluster.leader();
        } else if round % 200 == 160 {
            if let Some(id) = cluster.cut.take() {
                cluster.restart(id, 5);
                // a restart goes back to the snapshot
                seen.remove(&id);
            }
        }
        cluster.tick_all();
        if round % 7 == 0 {
            if let Some(id) = cluster.leader() {
                cluster.propose(id, &format!("{ticket}"), ticket).unwrap();
                ticket += 1;
            }
        }
        for (id, node) in &cluster.nodes {
            let core = &node.driver.core;
            let last = core.last_index();
            if let Some((term, commit, state, last_before)) = seen.get(id) {
                assert!(core.current_term >= *term);
                assert!(core.commit_index >= *commit);
                if *state == RaftState::Leader && core.is_leader() && core.current_term == *term {
                    assert!(last >= *last_before);
                }
            }
            let now = (core.current_term, core.commit_index, core.state, last);
            seen.insert(*id, now);

            // what is stored is what the node would start from
            let metadata = node.storage.restore_metadata().unwrap();
            if let Some(metadata) = metadata {
                assert_eq!(metadata.term, core.current_term);
                assert_eq!(metadata.voted_for, core.voted_for);
                let stored = node.storage.restore_log_entries().unwrap();
                assert_eq!(stored.unwrap_or_default(), core.log[1..].to_vec());
            }

            // entries of the same term at the same index come with the same entries before them
            for other in cluster.nodes.values() {
                let theirs = &other.driver.core;
                let low = core.snapshot_index.max(theirs.snapshot_index) + 1;
                let high = last.min(theirs.last_index());
                let at = |core: &ferris_ferry::raft::RaftCore, i: u64| {
                    core.log[(i - core.snapshot_index) as usize].clone()
                };
                let matching = (low..=high)
                    .rev()
                    .find(|i| at(core, *i).term == at(theirs, *i).term);
                if let Some(end) = matching {
                    for i in low..=end {
                        assert_eq!(at(core, i), at(theirs, i));
                    }
                }
            }
        }
    }
    assert!(ticket > 10);
}

#[test]
fn a_new_leader_has_all_that_was_applied() {
    let mut cluster = Cluster::fresh(3, 100);
    let first = cluster.elect();
    for ticket in 0..4 {
        cluster.propose(first, &format!("{ticket}"), ticket).unwrap();
    }
    cluster.run_until_applied(4);
    cluster.cut = Some(first);
    for _ in 0..200 {
        cluster.tick_all();
    }
    let second = cluster
        .nodes
        .iter()
        .find(|(id, node)| **id != first && node.driver.core.is_leader())
        .map(|(id, _)| *id)
        .unwrap();
    let log = &cluster.nodes[&second].driver.core.log;
    for (i, command) in cluster.nodes[&first].state.iter().enumerate() {
        assert_eq!(log[i + 2].command, *command);
    }
}

#[test]
fn a_node_starts_from_a_snapshot_with_nothing_after_it() {
    let mut cluster = Cluster::fresh(3, 3);
    let leader = cluster.elect();
    for ticket in 0..3 {
        cluster.propose(leader, &format!("c{ticket}"), ticket).unwrap();
    }
    cluster.run_until_applied(3);
    for id in 1..=3 {
        let old = cluster.nodes[&id].driver.core.log.clone();
        assert_eq!(old.len(), 1);
        let storage = &cluster.nodes[&id].storage;
        assert_eq!(storage.restore_log_entries(), Ok(Some(vec![])));
        cluster.restart(id, 3);
        let core = &cluster.nodes[&id].driver.core;
        assert_eq!(core.log, old);
        assert_eq!(core.snapshot_index, 4);
        assert_eq!(core.commit_index, 4);
    }
    let leader = cluster.elect();
    cluster.propose(leader, "c3", 3).unwrap();
    cluster.run_until_applied(4);
}

#[test]
fn a_leader_that_was_cut_off_gives_way_when_it_comes_back() {
    let mut cluster = Cluster::fresh(3, 100);
    let old = cluster.elect();
    cluster.cut = Some(old);
    cluster.propose(old, "lost", 1).unwrap();
    for _ in 0..200 {
        cluster.tick_all();
    }
    let new = cluster
        .nodes
        .iter()
        .find(|(id, node)| **id != old && node.driver.core.is_leader())
        .map(|(id, _)| *id)
        .unwrap();
    assert!(cluster.nodes[&old].driver.core.is_leader());
    cluster.propose(new, "kept", 2).unwrap();
    cluster.deliver_all();
    cluster.cut = None;
    for _ in 0..100 {
        cluster.tick_all();
    }
    assert_eq!(cluster.leader(), Some(new));
    assert_eq!(
        cluster.nodes[&old].replies,
        vec![(1, Err(ProposalError::LostLeadership))]
    );
    for node in cluster.nodes.values() {
        assert_eq!(node.state, vec![b"kept".to_vec()]);
        assert_eq!(node.driver.core.log, cluster.nodes[&new].driver.core.log);
    }
}

#[test]
fn a_ticket_is_kept_under_the_index_that_is_stored() {
    let mut cluster = Cluster::fresh(3, 100);
    let leader = cluster.elect();
    cluster.deliver_all();
    let driver = &mut cluster.nodes.get_mut(&leader).unwrap().driver;
    let next = driver.core.last_index() + 1;
    let actions = driver.propose(b"X".to_vec(), 42).unwrap();
    match &actions[0] {
        ferris_ferry::types::Action::PersistLogEntries { start_index, .. } => {
            assert_eq!(*start_index, next)
        }
        other => panic!("{other:?}"),
    }
    assert_eq!(driver.pending_proposals[&next], 42);
}

#[test]
fn a_crash_finds_the_node_before_or_after_an_event() {
    let entries: Vec<LogEntry> = ["a", "b", "c"]
        .map(|text| LogEntry {
            term: 1,
            command: text.as_bytes().to_vec(),
        })
        .to_vec();
    let requests = [
        AppendEntriesRPC {
            term: 1,
            leader_id: 2,
            prev_log_index: 0,
            prev_log_term: 0,
            entries: entries[..2].to_vec(),
            leader_commit: 0,
        },
        AppendEntriesRPC {
            term: 2,
            leader_id: 3,
            prev_log_index: 1,
            prev_log_term: 1,
            entries: vec![LogEntry {
                term: 2,
                command: b"x".to_vec(),
            }],
            leader_commit: 1,
        },
    ];
    // what is found after so many effects of the second request
    let mut found = Vec::new();
    for stop in 0..10 {
        let mut node = Node::start(&config(1, 3, 100), InMemoryStorage::new());
        let mut network = VecDeque::new();
        node.receive(Message::AppendEntries(requests[0].clone()), &mut network);
        network.clear();
        let received = node
            .driver
            .handle_message(Message::AppendEntries(requests[1].clone()));
        let mut effects = received.refusals;
        for action in received.actions {
            effects.extend(node.driver.handle_action(action));
        }
        effects.truncate(stop);
        let sent = effects
            .iter()
            .any(|effect| matches!(effect, Effect::Send { .. }));
        node.perform(effects, &mut network);
        let core = Node::start(&config(1, 3, 100), node.storage).driver.core;
        let last = core.log.last().unwrap().command.clone();
        found.push((core.current_term, core.last_index(), last));
        if sent {
            assert_eq!(found.last().unwrap(), &(2, 2, b"x".to_vec()));
        }
    }
    found.dedup();
    assert_eq!(
        found,
        vec![
            (1, 2, b"b".to_vec()),
            (2, 2, b"b".to_vec()),
            (2, 2, b"x".to_vec()),
        ]
    );
}

#[test]
fn a_crash_may_find_a_snapshot_with_the_log_of_before_or_none() {
    let entry = |text: &str| LogEntry {
        term: 1,
        command: text.as_bytes().to_vec(),
    };
    let mut found = Vec::new();
    for stop in 0..8 {
        let mut node = Node::start(&config(1, 3, 100), InMemoryStorage::new());
        let mut network = VecDeque::new();
        node.receive(
            Message::AppendEntries(AppendEntriesRPC {
                term: 1,
                leader_id: 2,
                prev_log_index: 0,
                prev_log_term: 0,
                entries: vec![entry("a"), entry("b"), entry("c")],
                leader_commit: 0,
            }),
            &mut network,
        );
        let received = node
            .driver
            .handle_message(Message::InstallSnapshot(InstallSnapshotRPC {
                term: 1,
                leader_id: 2,
                last_included_index: 2,
                last_included_term: 1,
                data: b"a/b".to_vec(),
            }));
        let mut effects = Vec::new();
        for action in received.actions {
            effects.extend(node.driver.handle_action(action));
        }
        effects.truncate(stop);
        node.perform(effects, &mut network);
        let core = Node::start(&config(1, 3, 100), node.storage).driver.core;
        found.push((core.snapshot_index, core.log[1..].to_vec()));
    }
    found.dedup();
    assert_eq!(
        found,
        vec![
            (0, vec![entry("a"), entry("b"), entry("c")]),
            (2, vec![entry("a"), entry("b"), entry("c")]),
            (2, vec![]),
            (2, vec![entry("c")]),
        ]
    );
}
