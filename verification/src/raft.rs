//! The consensus algorithm: a synchronous, sans-I/O state machine.

use crate::model::{
    heartbeat_or_default, no_op, other_nodes, placeholder, CoreView, ReadBarrier, Step,
    DEFAULT_HEARTBEAT,
};
use crate::quorum::{lemma_take_next, replicated_index};
use crate::types::{
    actions_view, entries_view, Action, ActionView, AppendEntriesRPC, AppendEntriesResponseRPC,
    EntryView, InstallSnapshotRPC, InstallSnapshotResponseRPC, LogEntry, Message, MessageView,
    NodeId, RaftState, RequestVoteRPC, RequestVoteResponseRPC, SnapshotMetadata,
};
use std::collections::{HashMap, HashSet};
use std::ops::Range;
use vstd::prelude::*;

verus! {

broadcast use vstd::std_specs::hash::group_hash_axioms;

/// One node of the cluster.
pub struct RaftCore {
    pub id: NodeId,
    pub peers: Vec<NodeId>,
    pub state: RaftState,
    // --- Persistent State ---
    pub current_term: u64,
    pub voted_for: Option<NodeId>,
    /// The entries after `snapshot_index`, behind a placeholder for those up to it.
    pub log: Vec<LogEntry>,
    // --- End Persistent State ---
    /// The index of the first element of `log`.
    pub snapshot_index: u64,
    // --- Volatile State ---
    pub commit_index: u64,
    pub last_applied: u64,
    // --- End Volatile State ---
    // --- Leader Volatile State ---
    pub next_index: HashMap<NodeId, u64>,
    pub match_index: HashMap<NodeId, u64>,
    /// The reads that wait for a no-op to be committed.
    pub read_barriers: Vec<ReadBarrier>,
    // --- End Leader Volatile State ---
    pub votes_received: HashSet<NodeId>,
    /// The leader of the current term, once it is known.
    pub leader_id: Option<NodeId>,
    pub ticks_since_last_heartbeat: u64,
    pub election_timeout_range: Range<u64>,
    pub election_timeout: u64,
    pub heartbeat_interval: u64,
    /// Whether the term or the vote has changed since it was last written to stable storage.
    pub unsaved_metadata: bool,
    /// The first entry that has changed since the log was last written to stable storage.
    pub unsaved_from: Option<u64>,
}

impl View for RaftCore {
    type V = CoreView;

    open spec fn view(&self) -> CoreView {
        CoreView {
            id: self.id,
            peers: self.peers@,
            state: self.state,
            current_term: self.current_term,
            voted_for: self.voted_for,
            base: self.snapshot_index,
            log: entries_view(self.log@),
            commit_index: self.commit_index,
            last_applied: self.last_applied,
            next_index: self.next_index@,
            match_index: self.match_index@,
            votes_received: self.votes_received@,
            leader_id: self.leader_id,
            read_barriers: self.read_barriers@,
            ticks: self.ticks_since_last_heartbeat,
            timeout_start: self.election_timeout_range.start,
            timeout_end: self.election_timeout_range.end,
            election_timeout: self.election_timeout,
            heartbeat_interval: self.heartbeat_interval,
            unsaved_metadata: self.unsaved_metadata,
            unsaved_from: self.unsaved_from,
        }
    }
}

/// Draws an election timeout: `rand::Rng::random_range` on the generator of `rand::rng`, which
/// gives a number of the range and refuses an empty range. Which number it is, is left open.
#[verifier::external_body]
fn draw_timeout(start: u64, end: u64) -> (timeout: u64)
    requires
        start < end,
    ensures
        start <= timeout < end,
{
    rand::Rng::random_range(&mut rand::rng(), start..end)
}

/// Copies the entries from position `from` on.
fn copy_entries(log: &Vec<LogEntry>, from: usize) -> (entries: Vec<LogEntry>)
    requires
        from <= log.len(),
    ensures
        entries_view(entries@) == entries_view(log@).skip(from as int),
{
    let mut entries: Vec<LogEntry> = Vec::new();
    let mut i: usize = from;
    while i < log.len()
        invariant
            from <= i <= log.len(),
            entries_view(entries@) == entries_view(log@).subrange(from as int, i as int),
        decreases log.len() - i,
    {
        let entry = log[i].clone();
        let ghost before = entries@;
        entries.push(entry);
        assert(entries_view(entries@) =~= entries_view(before).push(entry@));
        i = i + 1;
    }
    assert(entries_view(entries@) =~= entries_view(log@).skip(from as int));
    entries
}

/// All nodes but this one, in the given order.
fn without(id: NodeId, nodes: &[NodeId]) -> (peers: Vec<NodeId>)
    ensures
        peers@ == other_nodes(id, nodes@),
{
    let mut peers: Vec<NodeId> = Vec::new();
    let mut i: usize = 0;
    proof {
        reveal(Seq::filter);
        assert(nodes@.take(0) =~= Seq::<u64>::empty());
    }
    while i < nodes.len()
        invariant
            0 <= i <= nodes.len(),
            peers@ == other_nodes(id, nodes@.take(i as int)),
        decreases nodes.len() - i,
    {
        proof {
            reveal(Seq::filter);
            assert(nodes@.take(i + 1).drop_last() =~= nodes@.take(i as int));
        }
        if nodes[i] != id {
            peers.push(nodes[i]);
        }
        i = i + 1;
    }
    assert(nodes@.take(i as int) =~= nodes@);
    peers
}

impl RaftCore {
    /// What holds of every node between two inputs.
    pub open spec fn wf(&self) -> bool {
        self@.wf()
    }

    /// Create a new RaftCore instance for a Node.
    ///
    /// Arguments:
    /// - id: This node's ID.
    /// - nodes: A collection of all the NodeId's in the cluster (including THIS node's ID).
    /// - heartbeat_interval: Optional setting of the number of ticks to heartbeat
    /// - election_range: Acceptable range for election timeout. Concrete value chosen with each
    ///   term. Provide the range as ticks based on chosen tick interval (i.e. if ticks are every
    ///   10ms, and you want a 150-300ms election timeout as noted by the paper, this should be
    ///   15..31).
    pub fn new(
        id: NodeId,
        nodes: &[NodeId],
        heartbeat_interval: Option<u64>,
        election_range: Range<u64>,
    ) -> (node: Self)
        requires
            election_range.start < election_range.end,
        ensures
            node.wf(),
            node@ == CoreView::fresh(
                id,
                nodes@,
                heartbeat_or_default(heartbeat_interval),
                election_range.start,
                election_range.end,
                node@.election_timeout,
            ),
    {
        let peers = without(id, nodes);
        // add dummy entry to the log to make it 0-indexed
        let log = vec![LogEntry { term: 0, command: Vec::new() }];
        let election_timeout: u64 = draw_timeout(election_range.start, election_range.end);
        let node = RaftCore {
            id,
            peers,
            state: RaftState::Follower,
            current_term: 0,
            voted_for: None,
            log,
            snapshot_index: 0,
            commit_index: 0,
            last_applied: 0,
            next_index: HashMap::new(),
            match_index: HashMap::new(),
            read_barriers: Vec::new(),
            votes_received: HashSet::new(),
            leader_id: None,
            ticks_since_last_heartbeat: 0,
            election_timeout_range: election_range,
            election_timeout,
            heartbeat_interval: match heartbeat_interval {
                Some(interval) => interval,
                None => DEFAULT_HEARTBEAT,
            },
            unsaved_metadata: false,
            unsaved_from: None,
        };
        assert(node@.log =~= seq![placeholder(0)]);
        node
    }

    /// A node as it was before a restart, from what is on stable storage.
    pub fn restore(
        id: NodeId,
        nodes: &[NodeId],
        heartbeat_interval: Option<u64>,
        election_range: Range<u64>,
        term: u64,
        voted_for: Option<NodeId>,
        entries: Vec<LogEntry>,
    ) -> (node: Self)
        requires
            election_range.start < election_range.end,
            1 + entries.len() <= u64::MAX,
        ensures
            node.wf(),
            node@ == CoreView::fresh(
                id,
                nodes@,
                heartbeat_or_default(heartbeat_interval),
                election_range.start,
                election_range.end,
                node@.election_timeout,
            ).restored(term, voted_for, entries_view(entries@), 0, 0),
    {
        Self::restore_with_snapshot(
            id,
            nodes,
            heartbeat_interval,
            election_range,
            term,
            voted_for,
            entries,
            0,
            0,
        )
    }

    /// A node as it was before a restart, where `entries` follow a snapshot that covers all up to
    /// `last_included_index`.
    pub fn restore_with_snapshot(
        id: NodeId,
        nodes: &[NodeId],
        heartbeat_interval: Option<u64>,
        election_range: Range<u64>,
        term: u64,
        voted_for: Option<NodeId>,
        entries: Vec<LogEntry>,
        last_included_index: u64,
        last_included_term: u64,
    ) -> (node: Self)
        requires
            election_range.start < election_range.end,
            last_included_index + 1 + entries.len() <= u64::MAX,
        ensures
            node.wf(),
            node@ == CoreView::fresh(
                id,
                nodes@,
                heartbeat_or_default(heartbeat_interval),
                election_range.start,
                election_range.end,
                node@.election_timeout,
            ).restored(
                term,
                voted_for,
                entries_view(entries@),
                last_included_index,
                last_included_term,
            ),
    {
        let mut node = Self::new(id, nodes, heartbeat_interval, election_range);
        let mut log = vec![LogEntry { term: last_included_term, command: Vec::new() }];
        let ghost first = log@;
        let mut rest = entries;
        log.append(&mut rest);
        node.current_term = term;
        node.voted_for = voted_for;
        node.snapshot_index = last_included_index;
        node.log = log;
        node.commit_index = last_included_index;
        node.last_applied = last_included_index;
        assert(node@.log =~= seq![placeholder(last_included_term)] + entries_view(entries@));
        node
    }

    /// Whether this node leads the cluster.
    pub fn is_leader(&self) -> (leads: bool)
        ensures
            leads == (self@.state == RaftState::Leader),
    {
        self.state == RaftState::Leader
    }

    /// The index of the last entry in the log.
    pub fn last_index(&self) -> (index: u64)
        requires
            self.wf(),
        ensures
            index == self@.last_index(),
    {
        self.snapshot_index + (self.log.len() as u64 - 1)
    }

    fn reset_election_timeout(&mut self)
        requires
            old(self).wf(),
        ensures
            final(self).wf(),
            final(self)@ == old(self)@.clock_restarted(final(self)@.election_timeout),
    {
        let timeout: u64 = draw_timeout(
            self.election_timeout_range.start,
            self.election_timeout_range.end,
        );
        self.restart_clock(timeout);
    }

    /// Starts the election clock over with the given timeout.
    pub fn restart_clock(&mut self, timeout: u64)
        requires
            old(self).wf(),
            old(self)@.timeout_start <= timeout < old(self)@.timeout_end,
        ensures
            final(self).wf(),
            final(self)@ == old(self)@.clock_restarted(timeout),
    {
        self.ticks_since_last_heartbeat = 0;
        self.election_timeout = timeout;
    }

    /// Function that checks if a message's term is greater than our current term. We step down as
    /// a follower if we receive a message with a higher term and then continue with whatever
    /// message we received
    fn check_msg_term(&mut self, msg_term: u64)
        requires
            old(self).wf(),
        ensures
            final(self).wf(),
            final(self)@ == old(self)@.joined_term(msg_term, final(self)@.election_timeout),
    {
        if msg_term > self.current_term {
            self.current_term = msg_term;
            self.state = RaftState::Follower;
            self.voted_for = None;
            self.leader_id = None;
            self.unsaved_metadata = true;
            self.reset_election_timeout();
        }
    }

    /// Puts what stable storage needs in front of the actions of a step.
    fn persist_first(&mut self, step: Vec<Action>) -> (actions: Vec<Action>)
        requires
            old(self).wf(),
        ensures
            final(self).wf(),
            (Step { state: final(self)@, actions: actions_view(actions@) }) == (Step {
                state: old(self)@,
                actions: actions_view(step@),
            }).persisted(),
    {
        let mut actions = self.take_persistence();
        let ghost first = actions@;
        let mut rest = step;
        actions.append(&mut rest);
        assert(actions_view(actions@) =~= actions_view(first) + actions_view(step@));
        actions
    }

    /// A candidate asks for a vote. The term and the vote are handed out for stable storage before
    /// the answer.
    pub fn handle_request_vote(&mut self, req: RequestVoteRPC) -> (actions: Vec<Action>)
        requires
            old(self).wf(),
        ensures
            final(self).wf(),
            (Step { state: final(self)@, actions: actions_view(actions@) })
                == old(self)@.on_request_vote(req, final(self)@.election_timeout).persisted(),
    {
        let step = self.answer_request_vote(req);
        self.persist_first(step)
    }

    fn answer_request_vote(&mut self, req: RequestVoteRPC) -> (actions: Vec<Action>)
        requires
            old(self).wf(),
        ensures
            final(self).wf(),
            (Step { state: final(self)@, actions: actions_view(actions@) })
                == old(self)@.on_request_vote(req, final(self)@.election_timeout),
    {
        self.check_msg_term(req.term);
        let ghost joined = self@;
        let last_log_index: u64 = self.last_index();
        let last_log_term: u64 = self.log[self.log.len() - 1].term;
        let can_vote = match self.voted_for {
            None => true,
            Some(id) => id == req.candidate_id,
        };
        // candidate's log must have a higher term or (if terms are equal) an index at least as
        // long as us
        let log_check = req.last_log_term > last_log_term || (req.last_log_term == last_log_term
            && req.last_log_index >= last_log_index);
        let grant_vote = req.term >= self.current_term && can_vote && log_check;
        assert(grant_vote == joined.grants(req));
        if grant_vote {
            self.reset_election_timeout();
            self.voted_for = Some(req.candidate_id);
            self.unsaved_metadata = true;
        }
        let actions = vec![
            Action::SendMessage {
                target: req.candidate_id,
                message: Message::RequestVoteResponse(
                    RequestVoteResponseRPC {
                        id: self.id,
                        term: self.current_term,
                        vote_granted: grant_vote,
                    },
                ),
            },
        ];
        assert(actions_view(actions@) =~= old(self)@.on_request_vote(
            req,
            self@.election_timeout,
        ).actions);
        actions
    }

    /// The action that brings `peer` up to date.
    fn build_append_entries_for_peer(&self, peer: NodeId) -> (action: Action)
        requires
            self.wf(),
            self@.tracks(peer),
        ensures
            action@ == self@.replication_to(peer),
    {
        // the next index that the peer needs to be aware of from our tracking
        let peer_next_index: u64 = match self.next_index.get(&peer) {
            Some(next) => *next,
            None => self.last_index() + 1,
        };
        if peer_next_index <= self.snapshot_index {
            return Action::SendInstallSnapshot {
                target: peer,
                term: self.current_term,
                last_included_index: self.snapshot_index,
                last_included_term: self.log[0].term,
            };
        }
        // the last index the peer should have seen from our log

        let prev_log_index: u64 = peer_next_index - 1;
        assert(prev_log_index - self.snapshot_index < self.log.len());
        let position: usize = (prev_log_index - self.snapshot_index) as usize;
        let prev_log_term: u64 = self.log[position].term;
        // grab the entries at the next place we think the peer needs it
        let entries = copy_entries(&self.log, position + 1);
        Action::SendMessage {
            target: peer,
            message: Message::AppendEntries(
                AppendEntriesRPC {
                    term: self.current_term,
                    leader_id: self.id,
                    prev_log_index,
                    prev_log_term,
                    entries,
                    leader_commit: self.commit_index,
                },
            ),
        }
    }

    /// This is a "generic" function in that it can be used to send heartbeats or actual new
    /// entries added. The leader just needs to call this function when it wants to send out append
    /// entries and this function will compute what entries to send
    pub fn append_entries(&self) -> (actions: Vec<Action>)
        requires
            self.wf(),
            self@.tracks_peers(),
        ensures
            actions_view(actions@) == self@.broadcast(),
    {
        let mut actions: Vec<Action> = Vec::new();
        let mut i: usize = 0;
        while i < self.peers.len()
            invariant
                self.wf(),
                self@.tracks_peers(),
                0 <= i <= self.peers.len(),
                actions_view(actions@) == self@.broadcast().take(i as int),
            decreases self.peers.len() - i,
        {
            assert(self@.tracks(self@.peers[i as int]));
            let action = self.build_append_entries_for_peer(self.peers[i]);
            let ghost before = actions@;
            actions.push(action);
            assert(actions_view(actions@) =~= actions_view(before).push(action@));
            assert(self@.broadcast().take(i + 1) =~= self@.broadcast().take(i as int).push(
                action@,
            ));
            i = i + 1;
        }
        assert(self@.broadcast().take(i as int) =~= self@.broadcast());
        actions
    }

    /// Appends one entry and remembers that it is not on stable storage yet.
    fn append(&mut self, entry: LogEntry)
        requires
            old(self).wf(),
            old(self)@.has_room(),
        ensures
            final(self).wf(),
            final(self)@ == old(self)@.appended(entry@),
    {
        let index: u64 = self.last_index() + 1;
        self.log.push(entry);
        self.mark_unsaved(index);
        assert(self@.log =~= old(self)@.log.push(entry@));
    }

    /// Remembers that the entries from `index` on are not on stable storage.
    fn mark_unsaved(&mut self, index: u64)
        ensures
            final(self)@ == (CoreView {
                unsaved_from: old(self)@.unsaved_at(index),
                ..old(self)@
            }),
    {
        self.unsaved_from = match self.unsaved_from {
            Some(from) => if from <= index {
                Some(from)
            } else {
                Some(index)
            },
            None => Some(index),
        };
    }

    /// The method used for client's to interact with the Raft cluster.
    pub fn propose(&mut self, command: Vec<u8>) -> (actions: Option<Vec<Action>>)
        requires
            old(self).wf(),
            old(self)@.can_propose(),
        ensures
            final(self).wf(),
            actions is None <==> old(self)@.state != RaftState::Leader,
            actions is None ==> final(self)@ == old(self)@,
            actions matches Some(list) ==> (Step {
                state: final(self)@,
                actions: actions_view(list@),
            }) == old(self)@.on_propose(command@),
    {
        if self.state != RaftState::Leader {
            return None;
        }
        let entry = LogEntry { term: self.current_term, command };
        self.append(entry);
        // reset the ticker because we don't need to send out a blank AppendEntries immediately
        // after this one
        self.ticks_since_last_heartbeat = 0;
        proof {
            let before = old(self)@;
            assert(self@ =~= before.on_propose(command@).state);
            assert forall|i: int| 0 <= i < self@.peers.len() implies self@.tracks(
                #[trigger] self@.peers[i],
            ) by {
                assert(before.tracks(before.peers[i]));
            }
        }
        // send out append entries to peers
        Some(self.append_entries())
    }

    /// Sends the heartbeat of a leader when it is due.
    pub fn heartbeat(&mut self) -> (actions: Vec<Action>)
        requires
            old(self).wf(),
            old(self)@.ticks >= old(self)@.heartbeat_interval ==> old(self)@.tracks_peers(),
        ensures
            final(self).wf(),
            (Step { state: final(self)@, actions: actions_view(actions@) })
                == old(self)@.on_heartbeat(),
    {
        // check if we have hit the heartbeat interval
        if self.ticks_since_last_heartbeat >= self.heartbeat_interval {
            // heartbeat hit, send AppendEntries to all peers and reset clock
            let actions = self.append_entries();
            self.ticks_since_last_heartbeat = 0;
            actions
        } else {
            let actions = Vec::new();
            assert(actions_view(actions@) =~= Seq::<ActionView>::empty());
            actions
        }
    }

    /// Stands for election when the election timeout is reached.
    fn election_timeout(&mut self) -> (actions: Vec<Action>)
        requires
            old(self).wf(),
            old(self)@.ticks >= old(self)@.election_timeout ==> old(self)@.current_term < u64::MAX,
        ensures
            final(self).wf(),
            (Step { state: final(self)@, actions: actions_view(actions@) })
                == old(self)@.on_election_clock(final(self)@.election_timeout),
    {
        let mut actions: Vec<Action> = Vec::new();
        // have we hit an election timeout?
        if self.ticks_since_last_heartbeat >= self.election_timeout {
            // start an election
            self.current_term = self.current_term + 1;
            self.state = RaftState::Candidate;
            // reset votes and vote for ourself
            self.votes_received.clear();
            self.voted_for = Some(self.id);
            let _ = self.votes_received.insert(self.id);
            self.leader_id = None;
            self.unsaved_metadata = true;
            self.reset_election_timeout();
            assert(self@ =~= old(self)@.on_election_clock(self@.election_timeout).state);
            let request = RequestVoteRPC {
                term: self.current_term,
                candidate_id: self.id,
                last_log_index: self.last_index(),
                last_log_term: self.log[self.log.len() - 1].term,
            };
            let ghost requests = old(self)@.on_election_clock(self@.election_timeout).actions;
            let mut i: usize = 0;
            while i < self.peers.len()
                invariant
                    self@ == old(self)@.on_election_clock(self@.election_timeout).state,
                    requests == Seq::new(
                        self@.peers.len(),
                        |j: int| self@.vote_request_to(self@.peers[j]),
                    ),
                    self.wf(),
                    self@.vote_request_to(0) == (ActionView::SendMessage {
                        target: 0,
                        message: MessageView::RequestVote(request),
                    }),
                    0 <= i <= self.peers.len(),
                    actions_view(actions@) == requests.take(i as int),
                decreases self.peers.len() - i,
            {
                let action = Action::SendMessage {
                    target: self.peers[i],
                    message: Message::RequestVote(request),
                };
                let ghost before = actions@;
                actions.push(action);
                assert(actions_view(actions@) =~= actions_view(before).push(action@));
                assert(requests.take(i + 1) =~= requests.take(i as int).push(action@));
                i = i + 1;
            }
            assert(requests.take(i as int) =~= requests);
        }
        assert(actions_view(actions@) =~= old(self)@.on_election_clock(
            self@.election_timeout,
        ).actions);
        actions
    }

    /// One tick of the clock. What stable storage needs comes first.
    pub fn tick(&mut self) -> (actions: Vec<Action>)
        requires
            old(self).wf(),
            old(self)@.can_tick(),
        ensures
            final(self).wf(),
            (Step { state: final(self)@, actions: actions_view(actions@) }) == old(self)@.on_tick(
                final(self)@.election_timeout,
            ).persisted(),
    {
        let step = self.advance_clock();
        self.persist_first(step)
    }

    fn advance_clock(&mut self) -> (actions: Vec<Action>)
        requires
            old(self).wf(),
            old(self)@.can_tick(),
        ensures
            final(self).wf(),
            (Step { state: final(self)@, actions: actions_view(actions@) }) == old(self)@.on_tick(
                final(self)@.election_timeout,
            ),
    {
        // advance ticks_since_last_heartbeat
        self.ticks_since_last_heartbeat = self.ticks_since_last_heartbeat + 1;
        proof {
            let before = old(self)@;
            assert(before.tracks_peers() ==> self@.tracks_peers()) by {
                assert(forall|i: int|
                    0 <= i < before.peers.len() && before.tracks(#[trigger] before.peers[i])
                        ==> self@.tracks(self@.peers[i]));
            }
        }
        match self.state {
            RaftState::Leader => self.heartbeat(),
            RaftState::Candidate => self.election_timeout(),
            // as a follower, we should check if we have hit the election timeout
            RaftState::Follower => self.election_timeout(),
        }
    }

    /// Appends the no-op of a new leader and forgets what was known of the peers' logs.
    fn initialize_leader_state(&mut self)
        requires
            old(self).wf(),
            old(self)@.has_room(),
        ensures
            final(self).wf(),
            final(self)@ == (CoreView {
                next_index: old(self)@.leading(0).next_index,
                match_index: old(self)@.leading(0).match_index,
                ..old(self)@.appended(no_op(old(self)@.current_term))
            }),
    {
        let entry = LogEntry { term: self.current_term, command: Vec::new() };
        self.append(entry);
        assert(entry@ == no_op(self.current_term));
        let next: u64 = self.last_index() + 1;
        let ghost appended = self@;
        let ghost start = old(self)@;
        let mut i: usize = 0;
        assert(self@.peers.take(0).to_set() =~= Set::<u64>::empty());
        assert(self@.next_index =~= start.next_index.union_prefer_right(
            Map::new(|peer: u64| self@.peers.take(0).to_set().contains(peer), |peer: u64| next),
        ));
        assert(self@.match_index =~= start.match_index.union_prefer_right(
            Map::new(|peer: u64| self@.peers.take(0).to_set().contains(peer), |peer: u64| 0u64),
        ));
        while i < self.peers.len()
            invariant
                appended == start.appended(no_op(start.current_term)),
                next == appended.last_index() + 1,
                0 <= i <= self.peers.len(),
                self.wf(),
                self@ == (CoreView {
                    next_index: self@.next_index,
                    match_index: self@.match_index,
                    ..appended
                }),
                self@.next_index == start.next_index.union_prefer_right(
                    Map::new(
                        |peer: u64| self@.peers.take(i as int).to_set().contains(peer),
                        |peer: u64| next,
                    ),
                ),
                self@.match_index == start.match_index.union_prefer_right(
                    Map::new(
                        |peer: u64| self@.peers.take(i as int).to_set().contains(peer),
                        |peer: u64| 0u64,
                    ),
                ),
            decreases self.peers.len() - i,
        {
            let peer: u64 = self.peers[i];
            let ghost before = self@;
            let _ = self.next_index.insert(peer, next);
            let _ = self.match_index.insert(peer, 0);
            proof {
                lemma_take_next(self@.peers, i as int);
                let seen = self@.peers.take(i + 1).to_set();
                assert(self@.next_index =~= start.next_index.union_prefer_right(
                    Map::new(|other: u64| seen.contains(other), |other: u64| next),
                ));
                assert(self@.match_index =~= start.match_index.union_prefer_right(
                    Map::new(|other: u64| seen.contains(other), |other: u64| 0u64),
                ));
            }
            i = i + 1;
        }
        assert(self@.peers.take(i as int) =~= self@.peers);
        assert(self@.next_index =~= start.leading(0).next_index);
        assert(self@.match_index =~= start.leading(0).match_index);
    }

    /// A peer answers a vote request. What stable storage needs comes first.
    pub fn handle_request_vote_response(&mut self, resp: RequestVoteResponseRPC) -> (actions: Vec<
        Action,
    >)
        requires
            old(self).wf(),
            old(self)@.has_room(),
        ensures
            final(self).wf(),
            (Step { state: final(self)@, actions: actions_view(actions@) })
                == old(self)@.on_request_vote_response(
                resp,
                final(self)@.election_timeout,
            ).persisted(),
    {
        let step = self.count_vote(resp);
        self.persist_first(step)
    }

    fn count_vote(&mut self, resp: RequestVoteResponseRPC) -> (actions: Vec<Action>)
        requires
            old(self).wf(),
            old(self)@.has_room(),
        ensures
            final(self).wf(),
            (Step { state: final(self)@, actions: actions_view(actions@) })
                == old(self)@.on_request_vote_response(resp, final(self)@.election_timeout),
    {
        self.check_msg_term(resp.term);
        let ghost joined = self@;
        // should only get this if we are a candidate
        if self.state == RaftState::Candidate && resp.vote_granted && resp.term
            == self.current_term {
            // received a vote for this election
            let _ = self.votes_received.insert(resp.id);
            let ghost counted = self@;
            if self.votes_received.len() as u128 > (self.peers.len() as u128 + 1) / 2 {
                // we won the election, transition to leader state
                self.initialize_leader_state();
                self.state = RaftState::Leader;
                self.leader_id = Some(self.id);
                self.reset_election_timeout();
                proof {
                    assert(self@ =~= counted.leading(self@.election_timeout));
                    assert forall|i: int| 0 <= i < self@.peers.len() implies self@.tracks(
                        #[trigger] self@.peers[i],
                    ) by {
                        assert(self@.peers.to_set().contains(self@.peers[i]));
                        assert(self@.next_index.dom().contains(self@.peers[i]));
                    }
                }
                return self.append_entries();
            }
        }
        let actions = Vec::new();
        assert(actions_view(actions@) =~= Seq::<ActionView>::empty());
        actions
    }

    /// The position of the first of the entries after index `prev` that the log does not hold.
    fn first_missing(&self, prev: u64, entries: &Vec<LogEntry>) -> (position: usize)
        requires
            self.wf(),
            prev + 1 + entries.len() <= u64::MAX,
        ensures
            position == self@.first_missing(prev, entries_view(entries@), 0),
            position <= entries.len(),
    {
        let ghost new = entries_view(entries@);
        let last: u64 = self.last_index();
        let mut i: usize = 0;
        while i < entries.len()
            invariant
                self.wf(),
                prev + 1 + entries.len() <= u64::MAX,
                new == entries_view(entries@),
                last == self@.last_index(),
                0 <= i <= entries.len(),
                self@.first_missing(prev, new, i as nat) == self@.first_missing(prev, new, 0),
            decreases entries.len() - i,
        {
            let index: u64 = prev + 1 + i as u64;
            let held = if index <= self.snapshot_index {
                true
            } else if index <= last {
                assert(index - self.snapshot_index < self.log.len());
                // an existing entry with the same index and same term is the same entry
                self.log[(index - self.snapshot_index) as usize].term == entries[i].term
            } else {
                false
            };
            assert(held == self@.holds(prev + 1 + i, new[i as int]));
            if !held {
                return i;
            }
            i = i + 1;
        }
        i
    }

    /// Takes over the entries after index `prev`, and overwrites anything that has a bad term.
    fn merge(&mut self, prev: u64, entries: Vec<LogEntry>)
        requires
            old(self).wf(),
            prev <= old(self)@.last_index(),
            prev + 1 + entries.len() <= u64::MAX,
        ensures
            final(self)@ == old(self)@.merged(prev, entries_view(entries@)),
            final(self)@.log.len() >= 1,
            final(self)@.last_index() < u64::MAX,
            final(self)@.unsaved_from matches Some(from) ==> final(self)@.base < from
                <= final(self)@.last_index(),
    {
        let k: usize = self.first_missing(prev, &entries);
        let ghost new = entries_view(entries@);
        proof {
            lemma_first_missing(self@, prev, new, 0);
        }
        if k < entries.len() {
            // what is kept of the log ends before this entry
            let keep: usize = (prev + 1 + k as u64 - self.snapshot_index) as usize;
            self.log.truncate(keep);
            let mut rest = entries;
            let mut added = rest.split_off(k);
            assert(entries_view(added@) =~= new.skip(k as int));
            assert(self@.log =~= old(self)@.log.take(keep as int));
            let ghost kept = self@.log;
            let ghost tail = added@;
            self.log.append(&mut added);
            assert(self@.log =~= kept + entries_view(tail));
            self.mark_unsaved(prev + 1 + k as u64);
            assert(self@ =~= old(self)@.merged(prev, new));
        }
    }

    /// The actions that apply the entries after index `from` up to `to`.
    fn applications(&self, from: u64, to: u64) -> (actions: Vec<Action>)
        requires
            self@.log.len() >= 1,
            self@.base <= from,
            to > from ==> to <= self@.last_index(),
        ensures
            actions_view(actions@) == self@.applications(from, to),
    {
        let ghost all = self@.applications(from, to);
        let mut actions: Vec<Action> = Vec::new();
        let mut index: u64 = from;
        assert(actions_view(actions@) =~= all.take(0));
        while index < to
            invariant
                self@.log.len() >= 1,
                self@.base <= from <= index,
                index <= to || to <= from == index,
                to > from ==> to <= self@.last_index(),
                all == self@.applications(from, to),
                actions_view(actions@) == all.take(index - from),
            decreases to - index,
        {
            index = index + 1;
            assert(index - self.snapshot_index < self.log.len());
            let command = self.log[(index - self.snapshot_index) as usize].command.clone();
            let ghost entry = self.log@[index - self.snapshot_index];
            assert(command@ =~= entry.command@);
            assert(self@.log[index - self.snapshot_index] == entry@);
            let action = Action::ApplyToStateMachine { index, command };
            let ghost before = actions@;
            actions.push(action);
            assert(actions_view(actions@) =~= actions_view(before).push(action@));
            assert(all.take(index - from) =~= all.take(index - from - 1).push(action@));
        }
        assert(all.take(index - from) =~= all);
        actions
    }

    /// The answer to a leader.
    fn append_answer(&self, leader: NodeId, success: bool, index: u64) -> (action: Action)
        ensures
            action@ == self@.append_answer(leader, success, index),
    {
        Action::SendMessage {
            target: leader,
            message: Message::AppendEntriesResponse(
                AppendEntriesResponseRPC {
                    id: self.id,
                    term: self.current_term,
                    match_index: index,
                    success,
                    first_conflicting_index: None,
                    first_conflicting_term: None,
                },
            ),
        }
    }

    /// Looks at the term of a leader's message, and tells whether the node follows that leader.
    fn face_leader(&mut self, term: u64) -> (follows: bool)
        requires
            old(self).wf(),
        ensures
            final(self).wf(),
            final(self)@ == old(self)@.facing_leader(term, final(self)@.election_timeout),
            follows == final(self)@.follows(term),
    {
        self.check_msg_term(term);
        // check if we are a candidate and step down if the term is at least as big as ours
        // (Section 5.2)
        if term == self.current_term && self.state == RaftState::Candidate {
            // convert to follower and mark we didn't vote in the term (somehow, majority of
            // servers voted this server sending req to leader, so we follow suit and become a
            // follower)
            self.state = RaftState::Follower;
            self.voted_for = None;
            self.unsaved_metadata = true;
        }
        self.state == RaftState::Follower && term >= self.current_term
    }

    /// Whether the log agrees with the leader's at `index`.
    fn agrees_at(&self, index: u64, term: u64) -> (agrees: bool)
        requires
            self.wf(),
        ensures
            agrees == self@.agrees_at(index, term),
    {
        if index <= self.snapshot_index {
            true
        } else if index <= self.last_index() {
            assert(index - self.snapshot_index < self.log.len());
            self.log[(index - self.snapshot_index) as usize].term == term
        } else {
            false
        }
    }

    /// A leader sends entries, or just its heartbeat. What stable storage needs is left for
    /// `take_persistence`, and has to be written before the answer leaves.
    pub fn handle_append_entries(&mut self, req: AppendEntriesRPC) -> (actions: Vec<Action>)
        requires
            old(self).wf(),
            old(self)@.can_append_entries(req@),
        ensures
            final(self).wf(),
            (Step { state: final(self)@, actions: actions_view(actions@) })
                == old(self)@.on_append_entries(req@, final(self)@.election_timeout),
    {
        let follows = self.face_leader(req.term);
        let ghost facing = self@;
        // send a false response if we are a leader, or if the "Leader" is on an earlier term
        if !follows {
            let actions = vec![self.append_answer(req.leader_id, false, self.last_index())];
            assert(actions_view(actions@) =~= seq![facing.append_refusal(req.leader_id)]);
            return actions;
        }
        // reset election timeout since we have a valid leader on the right term

        self.reset_election_timeout();
        self.leader_id = Some(req.leader_id);
        let ghost following = self@;
        assert(following == facing.following(req.leader_id, self@.election_timeout));
        assert(following == old(self)@.facing_leader(req.term, self@.election_timeout).following(
            req.leader_id,
            self@.election_timeout,
        ));
        // ensure that the previous log index is actually less than our current length and at the
        // log index (the last the leader was tracking for us) matches the term
        if !self.agrees_at(req.prev_log_index, req.prev_log_term) {
            let actions = vec![self.append_answer(req.leader_id, false, self.last_index())];
            assert(actions_view(actions@) =~= seq![following.append_refusal(req.leader_id)]);
            return actions;
        }
        proof {
            let before = old(self)@;
            let unmoved = before.facing_leader(req.term, before.election_timeout);
            lemma_merged_ignores_clock(unmoved, following, req.prev_log_index, req@.entries);
        }
        // the log matches the leader's up to the last entry that this request speaks of
        let match_index: u64 = req.prev_log_index + req.entries.len() as u64;
        // now we start appending entries (and overwrite anything that has a bad term)
        self.merge(req.prev_log_index, req.entries);
        let ghost merged = self@;
        assert(merged == following.merged(req@.prev_log_index, req@.entries));
        // update our commit index
        let old_commit: u64 = self.commit_index;
        if req.leader_commit > self.commit_index {
            let last: u64 = self.snapshot_index + (self.log.len() as u64 - 1);
            self.commit_index = if req.leader_commit <= last {
                req.leader_commit
            } else {
                last
            };
            self.last_applied = self.commit_index;
        }
        // we should apply all of the entries between old_commit and the new commit_index

        let mut actions = self.applications(old_commit, self.commit_index);
        let ghost applied = actions@;
        let answer = self.append_answer(req.leader_id, true, match_index);
        actions.push(answer);
        proof {
            assert(actions_view(actions@) =~= actions_view(applied).push(answer@));
            let commit_index = merged.commit_told(req@.leader_commit);
            assert(self@ =~= CoreView { commit_index, last_applied: commit_index, ..merged });
            assert(actions_view(applied) =~= merged.applications(
                merged.commit_index,
                commit_index,
            ));
        }
        actions
    }

    /// A follower answers. Only the leader of the answer's term acts on it. What stable storage
    /// needs is left for `take_persistence`.
    pub fn handle_append_entries_response(&mut self, resp: AppendEntriesResponseRPC) -> (actions:
        Vec<Action>)
        requires
            old(self).wf(),
            old(self)@.can_append_entries_response(resp),
        ensures
            final(self).wf(),
            (Step { state: final(self)@, actions: actions_view(actions@) })
                == old(self)@.on_append_entries_response(resp, final(self)@.election_timeout),
    {
        self.check_msg_term(resp.term);
        let ghost joined = self@;
        if self.state != RaftState::Leader || resp.term != self.current_term {
            let actions = Vec::new();
            assert(actions_view(actions@) =~= Seq::<ActionView>::empty());
            return actions;
        }
        if !resp.success {
            // now we have to decrement next_index for this client and try the AppendEntries again
            let tracked_next: Option<u64> = match self.next_index.get(&resp.id) {
                Some(next) => Some(*next),
                None => None,
            };
            if let Some(next) = tracked_next {
                let _ = self.next_index.insert(resp.id, next - 1);
            }
            assert(self@ =~= joined.stepped_back(resp.id));
            let actions = vec![self.build_append_entries_for_peer(resp.id)];
            assert(actions_view(actions@) =~= seq![self@.replication_to(resp.id)]);
            return actions;
        }
        // grab the highest value that a majority of servers has in their match_index

        let own: u64 = self.last_index();
        let replicated: u64 = replicated_index(&self.match_index, resp.id, resp.match_index, own);
        // update the follower's match_index to the provided value in the response
        // next_index should also be updated to match_index + 1
        let _ = self.match_index.insert(resp.id, resp.match_index);
        let _ = self.next_index.insert(resp.id, resp.match_index + 1);
        let ghost progressed = self@;
        assert(progressed =~= joined.progressed(resp.id, resp.match_index));
        assert(replicated == progressed.replicated_index());
        // find the highest index in our log where index.term == current_term
        let commit_index: u64 = self.newest_of_term(self.commit_index, replicated);
        // update commit index and apply all entries from last_applied to commit index
        let actions = self.applications(self.last_applied, commit_index);
        self.commit_index = commit_index;
        self.last_applied = commit_index;
        assert(self@ =~= progressed.committed().state);
        actions
    }

    /// The highest index after `low` up to `high` that holds an entry of the current term, or
    /// `low` where there is none.
    fn newest_of_term(&self, low: u64, high: u64) -> (index: u64)
        requires
            self.wf(),
            self@.base <= low,
            high > low ==> high <= self@.last_index(),
        ensures
            index == self@.newest_of_term(low, high),
            low <= index,
            index > low ==> index <= high,
    {
        let mut index: u64 = high;
        while index > low
            invariant
                self.wf(),
                self@.base <= low,
                index > low ==> index <= self@.last_index(),
                index <= high,
                self@.newest_of_term(low, index) == self@.newest_of_term(low, high),
            decreases index,
        {
            assert(index - self.snapshot_index < self.log.len());
            if self.log[(index - self.snapshot_index) as usize].term == self.current_term {
                return index;
            }
            index = index - 1;
        }
        low
    }

    /// Asks for leave to read. The read may go ahead once the no-op that is appended for it is
    /// committed, because the node was still the leader then.
    pub fn request_read_barrier(&mut self) -> (id: Option<u64>)
        requires
            old(self).wf(),
            old(self)@.has_room(),
        ensures
            final(self).wf(),
            id is None <==> old(self)@.state != RaftState::Leader,
            id is None ==> final(self)@ == old(self)@,
            id matches Some(index) ==> index == old(self)@.last_index() + 1 && final(self)@
                == old(self)@.on_read_request(),
    {
        if self.state != RaftState::Leader {
            return None;
        }
        let entry = LogEntry { term: self.current_term, command: Vec::new() };
        self.append(entry);
        assert(entry@ == no_op(self.current_term));
        let index: u64 = self.last_index();
        self.read_barriers.push(ReadBarrier { index, term: self.current_term });
        Some(index)
    }

    /// Hands out the reads whose entry is committed, and drops those that can no longer get there.
    pub fn take_ready_reads(&mut self) -> (actions: Vec<Action>)
        requires
            old(self).wf(),
        ensures
            final(self).wf(),
            final(self)@ == (CoreView {
                read_barriers: old(self)@.waiting_reads(),
                ..old(self)@
            }),
            actions_view(actions@) == old(self)@.read_answers(),
    {
        let mut actions: Vec<Action> = Vec::new();
        let mut waiting: Vec<ReadBarrier> = Vec::new();
        let ghost core = self@;
        let ghost all = core.read_barriers;
        let ghost is_ready = |barrier: ReadBarrier|
            barrier.term == core.current_term && barrier.index <= core.commit_index;
        let ghost is_waiting = |barrier: ReadBarrier|
            barrier.term == core.current_term && barrier.index > core.commit_index;
        let ghost answer = |barrier: ReadBarrier|
            ActionView::ReadBarrierReady { id: barrier.index };
        proof {
            reveal(Seq::filter);
            assert(all.take(0) =~= Seq::<ReadBarrier>::empty());
            assert(actions_view(actions@) =~= Seq::<ReadBarrier>::empty().map_values(answer));
        }
        if self.state == RaftState::Leader {
            let mut i: usize = 0;
            while i < self.read_barriers.len()
                invariant
                    self@ == core,
                    all == core.read_barriers,
                    is_ready == (|barrier: ReadBarrier|
                        barrier.term == core.current_term && barrier.index <= core.commit_index),
                    is_waiting == (|barrier: ReadBarrier|
                        barrier.term == core.current_term && barrier.index > core.commit_index),
                    answer == (|barrier: ReadBarrier|
                        ActionView::ReadBarrierReady { id: barrier.index }),
                    0 <= i <= self.read_barriers.len(),
                    waiting@ == all.take(i as int).filter(is_waiting),
                    actions_view(actions@) == all.take(i as int).filter(is_ready).map_values(
                        answer,
                    ),
                decreases self.read_barriers.len() - i,
            {
                let barrier = self.read_barriers[i];
                let ghost before = actions@;
                proof {
                    reveal(Seq::filter);
                    assert(all.take(i + 1).drop_last() =~= all.take(i as int));
                    assert(all.take(i + 1).last() == barrier);
                    let ready = all.take(i as int).filter(is_ready);
                    assert(ready.push(barrier).map_values(answer) =~= ready.map_values(
                        answer,
                    ).push(answer(barrier)));
                }
                if barrier.term == self.current_term {
                    if barrier.index <= self.commit_index {
                        let ready = Action::ReadBarrierReady { id: barrier.index };
                        actions.push(ready);
                        assert(actions_view(actions@) =~= actions_view(before).push(ready@));
                    } else {
                        waiting.push(barrier);
                    }
                }
                i = i + 1;
            }
            assert(all.take(i as int) =~= all);
        }
        self.read_barriers = waiting;
        assert(self@.read_barriers =~= core.waiting_reads());
        assert(actions_view(actions@) =~= core.read_answers());
        actions
    }

    /// Hands out what has to be written to stable storage before any message leaves.
    pub fn take_persistence(&mut self) -> (actions: Vec<Action>)
        requires
            old(self).wf(),
        ensures
            final(self).wf(),
            final(self)@ == old(self)@.saved(),
            actions_view(actions@) == old(self)@.persistence(),
    {
        let mut actions: Vec<Action> = Vec::new();
        if self.unsaved_metadata {
            actions.push(
                Action::PersistMetadata { term: self.current_term, voted_for: self.voted_for },
            );
        }
        if let Some(from) = self.unsaved_from {
            assert(from - self.snapshot_index < self.log.len());
            let entries = copy_entries(&self.log, (from - self.snapshot_index) as usize);
            actions.push(Action::PersistLogEntries { start_index: from, entries });
        }
        self.unsaved_metadata = false;
        self.unsaved_from = None;
        assert(actions_view(actions@) =~= old(self)@.persistence());
        actions
    }

    /// The point in the log that a snapshot covers which is taken when the entry at `applied` was
    /// the last one to be applied.
    pub fn prepare_snapshot(&self, applied: u64) -> (metadata: SnapshotMetadata)
        requires
            self.wf(),
            self@.can_compact(applied),
        ensures
            metadata.last_applied == applied,
            metadata.last_applied_term == self@.term_at(applied as int),
    {
        assert(applied - self.snapshot_index < self.log.len());
        SnapshotMetadata {
            last_applied: applied,
            last_applied_term: self.log[(applied - self.snapshot_index) as usize].term,
        }
    }

    /// Drops the entries that a snapshot covers which is on stable storage by now.
    pub fn complete_snapshot(&mut self, metadata: SnapshotMetadata)
        requires
            old(self).wf(),
            old(self)@.can_compact(metadata.last_applied),
        ensures
            final(self).wf(),
            final(self)@ == old(self)@.compacted(metadata),
    {
        let last: u64 = self.last_index();
        let index: u64 = metadata.last_applied;
        assert(index - self.snapshot_index < self.log.len());
        let mut rest = self.log.split_off((index - self.snapshot_index) as usize + 1);
        let ghost kept = rest@;
        let mut log = vec![LogEntry { term: metadata.last_applied_term, command: Vec::new() }];
        log.append(&mut rest);
        self.log = log;
        self.snapshot_index = index;
        self.unsaved_from = if index < last {
            Some(index + 1)
        } else {
            None
        };
        proof {
            assert(entries_view(kept) =~= old(self)@.log.skip(index - old(self)@.base + 1));
            assert(self@.log =~= old(self)@.compacted(metadata).log);
        }
    }

    /// A leader sends a snapshot in place of entries that it no longer has. What stable storage
    /// needs comes first.
    pub fn handle_install_snapshot(&mut self, req: InstallSnapshotRPC) -> (actions: Vec<Action>)
        requires
            old(self).wf(),
            req.last_included_index < u64::MAX,
        ensures
            final(self).wf(),
            (Step { state: final(self)@, actions: actions_view(actions@) })
                == old(self)@.on_install_snapshot(
                req@,
                final(self)@.election_timeout,
            ).persisted(),
    {
        let step = self.take_over_snapshot(req);
        self.persist_first(step)
    }

    fn take_over_snapshot(&mut self, req: InstallSnapshotRPC) -> (actions: Vec<Action>)
        requires
            old(self).wf(),
            req.last_included_index < u64::MAX,
        ensures
            final(self).wf(),
            (Step { state: final(self)@, actions: actions_view(actions@) })
                == old(self)@.on_install_snapshot(req@, final(self)@.election_timeout),
    {
        let follows = self.face_leader(req.term);
        let ghost facing = self@;
        let mut actions: Vec<Action> = Vec::new();
        if !follows {
            actions.push(self.snapshot_answer(req.leader_id, self.snapshot_index));
            assert(actions_view(actions@) =~= seq![
                facing.snapshot_answer(req.leader_id, facing.base),
            ]);
            return actions;
        }
        self.reset_election_timeout();
        self.leader_id = Some(req.leader_id);
        let ghost following = self@;
        assert(following == old(self)@.facing_leader(req.term, self@.election_timeout).following(
            req.leader_id,
            self@.election_timeout,
        ));
        let answer = self.snapshot_answer(req.leader_id, req.last_included_index);
        if req.last_included_index > self.commit_index {
            let index: u64 = req.last_included_index;
            // keep the entries after the snapshot, if the log has the last one that it covers
            let mut kept = if index <= self.last_index() && self.agrees_at(
                index,
                req.last_included_term,
            ) {
                assert(index - self.snapshot_index < self.log.len());
                self.log.split_off((index - self.snapshot_index) as usize + 1)
            } else {
                Vec::new()
            };
            let ghost rest = entries_view(kept@);
            assert(rest =~= following.entries_after(index, req.last_included_term));
            let mut log = vec![LogEntry { term: req.last_included_term, command: Vec::new() }];
            log.append(&mut kept);
            self.log = log;
            self.snapshot_index = index;
            self.commit_index = index;
            self.last_applied = index;
            self.unsaved_from = None;
            assert(self@.log =~= seq![placeholder(req.last_included_term)] + rest);
            actions.push(
                Action::InstallSnapshot {
                    last_included_index: index,
                    last_included_term: req.last_included_term,
                    data: req.data,
                },
            );
            if self.log.len() > 1 {
                let entries = copy_entries(&self.log, 1);
                assert(entries_view(entries@) =~= rest);
                actions.push(Action::PersistLogEntries { start_index: index + 1, entries });
            }
            assert(actions_view(actions@) =~= following.installation(req@));
        }
        let ghost before = actions@;
        actions.push(answer);
        assert(actions_view(actions@) =~= actions_view(before).push(answer@));
        assert(actions_view(actions@) =~= old(self)@.on_install_snapshot(
            req@,
            self@.election_timeout,
        ).actions);
        actions
    }

    /// The answer to a leader that sent a snapshot.
    fn snapshot_answer(&self, leader: NodeId, index: u64) -> (action: Action)
        ensures
            action@ == self@.snapshot_answer(leader, index),
    {
        Action::SendMessage {
            target: leader,
            message: Message::InstallSnapshotResponse(
                InstallSnapshotResponseRPC {
                    id: self.id,
                    term: self.current_term,
                    last_included_index: index,
                },
            ),
        }
    }

    /// A follower has taken over a snapshot. What stable storage needs is all that there is to do.
    pub fn handle_install_snapshot_response(&mut self, resp: InstallSnapshotResponseRPC) -> (actions:
        Vec<Action>)
        requires
            old(self).wf(),
            resp.last_included_index < u64::MAX,
        ensures
            final(self).wf(),
            (Step { state: final(self)@, actions: actions_view(actions@) }) == (Step {
                state: old(self)@.on_install_snapshot_response(
                    resp,
                    final(self)@.election_timeout,
                ),
                actions: Seq::<ActionView>::empty(),
            }).persisted(),
    {
        self.check_msg_term(resp.term);
        if self.state == RaftState::Leader && resp.term == self.current_term {
            let _ = self.match_index.insert(resp.id, resp.last_included_index);
            let _ = self.next_index.insert(resp.id, resp.last_included_index + 1);
        }
        assert(self@ =~= old(self)@.on_install_snapshot_response(resp, self@.election_timeout));
        let step = Vec::new();
        assert(actions_view(step@) =~= Seq::<ActionView>::empty());
        self.persist_first(step)
    }

    /// Whether what is tracked of `peer` lies within the log.
    fn tracks(&self, peer: NodeId) -> (tracks: bool)
        requires
            self.wf(),
        ensures
            tracks == self@.tracks(peer),
    {
        match self.next_index.get(&peer) {
            Some(next) => *next >= 1 && *next <= self.last_index() + 1,
            None => true,
        }
    }

    /// Whether what is tracked of the peers lies within the log.
    fn tracks_peers(&self) -> (tracks: bool)
        requires
            self.wf(),
        ensures
            tracks == self@.tracks_peers(),
    {
        let mut i: usize = 0;
        while i < self.peers.len()
            invariant
                self.wf(),
                0 <= i <= self.peers.len(),
                forall|j: int| 0 <= j < i ==> self@.tracks(#[trigger] self@.peers[j]),
            decreases self.peers.len() - i,
        {
            if !self.tracks(self.peers[i]) {
                assert(!self@.tracks(self@.peers[i as int]));
                return false;
            }
            i = i + 1;
        }
        true
    }

    /// Whether the log has room for one more entry.
    pub fn has_room(&self) -> (room: bool)
        requires
            self.wf(),
        ensures
            room == self@.has_room(),
    {
        self.last_index() < u64::MAX - 1
    }

    /// Whether the node can take a tick.
    pub fn can_tick(&self) -> (can: bool)
        requires
            self.wf(),
        ensures
            can == self@.can_tick(),
    {
        if self.ticks_since_last_heartbeat == u64::MAX {
            return false;
        }
        let ticks: u64 = self.ticks_since_last_heartbeat + 1;
        if self.state == RaftState::Leader {
            ticks < self.heartbeat_interval || self.tracks_peers()
        } else {
            ticks < self.election_timeout || self.current_term < u64::MAX
        }
    }

    /// Whether a snapshot may cover the entries up to `index`.
    pub fn can_compact(&self, index: u64) -> (can: bool)
        requires
            self.wf(),
        ensures
            can == self@.can_compact(index),
    {
        self.snapshot_index <= index && index <= self.last_applied && index <= self.last_index()
    }

    /// Whether the node can take a proposal.
    pub fn can_propose(&self) -> (can: bool)
        requires
            self.wf(),
        ensures
            can == self@.can_propose(),
    {
        self.state != RaftState::Leader || (self.tracks_peers() && self.has_room())
    }

    /// Whether the node can take a leader's entries.
    fn can_append_entries(&self, req: &AppendEntriesRPC) -> (can: bool)
        requires
            self.wf(),
        ensures
            can == self@.can_append_entries(req@),
    {
        let follows = req.term > self.current_term || (req.term == self.current_term && self.state
            != RaftState::Leader);
        let ghost facing = self@.facing_leader(req.term, self@.election_timeout);
        assert(follows == facing.follows(req.term));
        if !follows || !self.agrees_at(req.prev_log_index, req.prev_log_term) {
            return true;
        }
        if req.prev_log_index == u64::MAX || req.entries.len() as u64 > u64::MAX - 1
            - req.prev_log_index {
            return false;
        }
        let k: usize = self.first_missing(req.prev_log_index, &req.entries);
        proof {
            lemma_first_missing_ignores_clock(
                self@,
                facing,
                req.prev_log_index,
                req@.entries,
                0,
            );
            lemma_first_missing(self@, req.prev_log_index, req@.entries, 0);
        }
        let last: u64 = if k == req.entries.len() {
            self.last_index()
        } else {
            req.prev_log_index + req.entries.len() as u64
        };
        req.leader_commit <= self.commit_index || self.commit_index <= last
    }

    /// Whether the node can take a follower's answer.
    fn can_append_entries_response(&self, resp: &AppendEntriesResponseRPC) -> (can: bool)
        requires
            self.wf(),
        ensures
            can == self@.can_append_entries_response(*resp),
    {
        if self.state != RaftState::Leader || resp.term != self.current_term {
            return true;
        }
        if resp.success {
            let own: u64 = self.last_index();
            let replicated: u64 = replicated_index(
                &self.match_index,
                resp.id,
                resp.match_index,
                own,
            );
            resp.match_index < u64::MAX && (replicated <= self.commit_index || replicated <= own)
        } else {
            match self.next_index.get(&resp.id) {
                Some(next) => *next >= 2 && *next - 1 <= self.last_index() + 1,
                None => true,
            }
        }
    }

    /// Whether the node can take the message.
    pub fn can_take(&self, message: &Message) -> (can: bool)
        requires
            self.wf(),
        ensures
            can == self@.can_take(message@),
    {
        match message {
            Message::RequestVote(_) => true,
            Message::RequestVoteResponse(_) => self.has_room(),
            Message::AppendEntries(req) => self.can_append_entries(req),
            Message::AppendEntriesResponse(resp) => self.can_append_entries_response(resp),
            Message::InstallSnapshot(req) => req.last_included_index < u64::MAX,
            Message::InstallSnapshotResponse(resp) => resp.last_included_index < u64::MAX,
        }
    }
}

/// The entries before the first missing one are held, so the missing one is at most one past the
/// end of the log.
pub(crate) proof fn lemma_first_missing(core: CoreView, prev: u64, entries: Seq<EntryView>, from: nat)
    requires
        from <= entries.len(),
        core.log.len() >= 1,
        prev + from <= core.last_index() || prev + from <= core.base,
    ensures
        from <= core.first_missing(prev, entries, from) <= entries.len(),
        prev + core.first_missing(prev, entries, from) <= core.last_index(),
        core.first_missing(prev, entries, from) < entries.len() ==> !core.holds(
            prev + 1 + core.first_missing(prev, entries, from),
            entries[core.first_missing(prev, entries, from) as int],
        ),
    decreases entries.len() - from,
{
    if from < entries.len() && core.holds(prev + 1 + from, entries[from as int]) {
        lemma_first_missing(core, prev, entries, from + 1);
    }
}

/// What the merge makes of the log does not depend on the clock or on who leads.
pub(crate) proof fn lemma_merged_ignores_clock(
    a: CoreView,
    b: CoreView,
    prev: u64,
    entries: Seq<EntryView>,
)
    requires
        a.base == b.base,
        a.log == b.log,
    ensures
        a.merged(prev, entries).log == b.merged(prev, entries).log,
        a.merged(prev, entries).base == b.merged(prev, entries).base,
{
    lemma_first_missing_ignores_clock(a, b, prev, entries, 0);
}

proof fn lemma_first_missing_ignores_clock(
    a: CoreView,
    b: CoreView,
    prev: u64,
    entries: Seq<EntryView>,
    from: nat,
)
    requires
        a.base == b.base,
        a.log == b.log,
    ensures
        a.first_missing(prev, entries, from) == b.first_missing(prev, entries, from),
    decreases entries.len() - from,
{
    if from < entries.len() {
        lemma_first_missing_ignores_clock(a, b, prev, entries, from + 1);
    }
}

} // verus!
