//! The state of a node as a mathematical value, and what each input makes of it.
//!
//! Log positions are absolute: the entry at index `i` is `log[i - base]`. The entry at `base` is a
//! placeholder for everything that a snapshot covers (index 0 and term 0 on a fresh node), so the
//! log is never empty.

use crate::types::{
    ActionView, AppendEntriesResponseRPC, AppendEntriesView, EntryView, InstallSnapshotResponseRPC,
    InstallSnapshotView, MessageView, RaftState, RequestVoteRPC, RequestVoteResponseRPC,
    SnapshotMetadata,
};
use vstd::prelude::*;

verus! {

/// A read that waits for the entry at `index`, which the leader of `term` appended for it.
#[derive(Clone, Copy, Debug, PartialEq)]
pub struct ReadBarrier {
    pub index: u64,
    pub term: u64,
}

/// What a `RaftCore` stands for.
#[verifier::ext_equal]
pub struct CoreView {
    pub id: u64,
    pub peers: Seq<u64>,
    pub state: RaftState,
    pub current_term: u64,
    pub voted_for: Option<u64>,
    pub base: u64,
    pub log: Seq<EntryView>,
    pub commit_index: u64,
    pub last_applied: u64,
    pub next_index: Map<u64, u64>,
    pub match_index: Map<u64, u64>,
    pub votes_received: Set<u64>,
    pub leader_id: Option<u64>,
    pub read_barriers: Seq<ReadBarrier>,
    pub ticks: u64,
    pub timeout_start: u64,
    pub timeout_end: u64,
    pub election_timeout: u64,
    pub heartbeat_interval: u64,
    pub unsaved_metadata: bool,
    pub unsaved_from: Option<u64>,
}

/// The outcome of one input: the next state, and the actions in the order they are asked for.
#[verifier::ext_equal]
pub struct Step {
    pub state: CoreView,
    pub actions: Seq<ActionView>,
}

pub open spec fn is_other(id: u64) -> spec_fn(u64) -> bool {
    |node: u64| node != id
}

/// All nodes but this one, in the given order.
pub open spec fn other_nodes(id: u64, nodes: Seq<u64>) -> Seq<u64> {
    nodes.filter(is_other(id))
}

/// The number of ticks between two heartbeats where none is given.
pub const DEFAULT_HEARTBEAT: u64 = 5;

/// The heartbeat interval of a node that was configured with `interval`.
pub open spec fn heartbeat_or_default(interval: Option<u64>) -> u64 {
    match interval {
        Some(ticks) => ticks,
        None => DEFAULT_HEARTBEAT,
    }
}

/// The entry that stands for the part of the log up to and including a snapshot.
pub open spec fn placeholder(term: u64) -> EntryView {
    EntryView { term, command: Seq::<u8>::empty() }
}

/// The entry that a new leader appends.
pub open spec fn no_op(term: u64) -> EntryView {
    EntryView { term, command: Seq::<u8>::empty() }
}

pub open spec fn lower(a: u64, b: u64) -> u64 {
    if a <= b {
        a
    } else {
        b
    }
}

/// How many servers hold every entry up to `index`, where `match_index` tells it of the others and
/// `own` is the last index of the server itself.
pub open spec fn holders(match_index: Map<u64, u64>, own: u64, index: u64) -> nat {
    match_index.dom().filter(|peer: u64| match_index[peer] >= index).len() + (if own >= index {
        1nat
    } else {
        0nat
    })
}

/// Whether `index` is the highest one that more than half of the servers hold.
pub open spec fn is_majority_index(match_index: Map<u64, u64>, own: u64, index: u64) -> bool {
    &&& 2 * holders(match_index, own, index) > match_index.dom().len() + 1
    &&& forall|above: u64|
        above > index ==> 2 * #[trigger] holders(match_index, own, above)
            <= match_index.dom().len() + 1
}

/// The highest index that more than half of the servers hold.
pub open spec fn majority_index(match_index: Map<u64, u64>, own: u64) -> u64 {
    choose|index: u64| is_majority_index(match_index, own, index)
}

impl CoreView {
    /// The state of a node that starts with nothing but its configuration.
    pub open spec fn fresh(
        id: u64,
        nodes: Seq<u64>,
        heartbeat_interval: u64,
        timeout_start: u64,
        timeout_end: u64,
        timeout: u64,
    ) -> CoreView {
        CoreView {
            id,
            peers: other_nodes(id, nodes),
            state: RaftState::Follower,
            current_term: 0,
            voted_for: None,
            base: 0,
            log: seq![placeholder(0)],
            commit_index: 0,
            last_applied: 0,
            next_index: Map::<u64, u64>::empty(),
            match_index: Map::<u64, u64>::empty(),
            votes_received: Set::<u64>::empty(),
            leader_id: None,
            read_barriers: Seq::<ReadBarrier>::empty(),
            ticks: 0,
            timeout_start,
            timeout_end,
            election_timeout: timeout,
            heartbeat_interval,
            unsaved_metadata: false,
            unsaved_from: None,
        }
    }

    /// A node as it was before a restart: `entries` follow the snapshot that ends at `index`.
    pub open spec fn restored(
        self,
        term: u64,
        voted_for: Option<u64>,
        entries: Seq<EntryView>,
        index: u64,
        index_term: u64,
    ) -> CoreView {
        CoreView {
            current_term: term,
            voted_for,
            base: index,
            log: seq![placeholder(index_term)] + entries,
            commit_index: index,
            last_applied: index,
            ..self
        }
    }

    /// The index of the last entry.
    pub open spec fn last_index(self) -> int {
        self.base + self.log.len() - 1
    }

    /// The term of the entry at `index`.
    pub open spec fn term_at(self, index: int) -> u64 {
        self.log[index - self.base].term
    }

    /// What holds of every state that the operations lead to.
    pub open spec fn wf(self) -> bool {
        &&& self.log.len() >= 1
        &&& self.base + self.log.len() <= u64::MAX
        &&& self.base <= self.commit_index
        &&& self.last_applied == self.commit_index
        &&& self.timeout_start <= self.election_timeout < self.timeout_end
        &&& self.votes_received.finite()
        &&& self.next_index.dom().finite()
        &&& self.match_index.dom().finite()
        &&& self.unsaved_from matches Some(from) ==> self.base < from <= self.last_index()
    }

    /// The entries at `index` and after are not on stable storage yet.
    pub open spec fn unsaved_at(self, index: u64) -> Option<u64> {
        match self.unsaved_from {
            Some(from) => Some(lower(from, index)),
            None => Some(index),
        }
    }

    /// The log with one more entry at its end.
    pub open spec fn appended(self, entry: EntryView) -> CoreView {
        CoreView {
            log: self.log.push(entry),
            unsaved_from: self.unsaved_at((self.last_index() + 1) as u64),
            ..self
        }
    }

    /// The election clock starts over with a newly drawn timeout.
    pub open spec fn clock_restarted(self, timeout: u64) -> CoreView {
        CoreView { ticks: 0, election_timeout: timeout, ..self }
    }

    /// A node that hears of a higher term joins it as a follower that has not voted.
    pub open spec fn joined_term(self, term: u64, timeout: u64) -> CoreView {
        if term > self.current_term {
            CoreView {
                current_term: term,
                state: RaftState::Follower,
                voted_for: None,
                leader_id: None,
                unsaved_metadata: true,
                ..self.clock_restarted(timeout)
            }
        } else {
            self
        }
    }

    // ---------------------------------------------------------------- replication to the peers

    /// The next index to send to `peer`: one past the end of the log where nothing is known.
    pub open spec fn next_for(self, peer: u64) -> int {
        if self.next_index.dom().contains(peer) {
            self.next_index[peer] as int
        } else {
            self.last_index() + 1
        }
    }

    /// Whether what is tracked of `peer` lies within the log.
    pub open spec fn tracks(self, peer: u64) -> bool {
        1 <= self.next_for(peer) <= self.last_index() + 1
    }

    pub open spec fn tracks_peers(self) -> bool {
        forall|i: int| 0 <= i < self.peers.len() ==> self.tracks(#[trigger] self.peers[i])
    }

    /// What brings `peer` up to date: the entries from its next index on, or the snapshot where
    /// those entries are gone.
    pub open spec fn replication_to(self, peer: u64) -> ActionView {
        let next = self.next_for(peer);
        if next <= self.base {
            ActionView::SendInstallSnapshot {
                target: peer,
                term: self.current_term,
                last_included_index: self.base,
                last_included_term: self.log[0].term,
            }
        } else {
            ActionView::SendMessage {
                target: peer,
                message: MessageView::AppendEntries(
                    AppendEntriesView {
                        term: self.current_term,
                        leader_id: self.id,
                        prev_log_index: (next - 1) as u64,
                        prev_log_term: self.term_at(next - 1),
                        entries: self.log.skip(next - self.base),
                        leader_commit: self.commit_index,
                    },
                ),
            }
        }
    }

    /// One replication action for each peer, in the order of the peers.
    pub open spec fn broadcast(self) -> Seq<ActionView> {
        Seq::new(self.peers.len(), |i: int| self.replication_to(self.peers[i]))
    }

    // ---------------------------------------------------------------------------------- inputs

    /// A client hands in a command.
    pub open spec fn on_propose(self, command: Seq<u8>) -> Step {
        let state = CoreView {
            ticks: 0,
            ..self.appended(EntryView { term: self.current_term, command })
        };
        Step { state, actions: state.broadcast() }
    }

    /// A client wants to read: a no-op has to be committed first.
    pub open spec fn on_read_request(self) -> CoreView {
        let index = (self.last_index() + 1) as u64;
        CoreView {
            read_barriers: self.read_barriers.push(
                ReadBarrier { index, term: self.current_term },
            ),
            ..self.appended(no_op(self.current_term))
        }
    }

    /// The heartbeat of a leader whose clock shows `ticks`.
    pub open spec fn on_heartbeat(self) -> Step {
        if self.ticks >= self.heartbeat_interval {
            Step { state: CoreView { ticks: 0, ..self }, actions: self.broadcast() }
        } else {
            Step { state: self, actions: Seq::<ActionView>::empty() }
        }
    }

    /// The vote request of a candidate to one of its peers.
    pub open spec fn vote_request_to(self, peer: u64) -> ActionView {
        ActionView::SendMessage {
            target: peer,
            message: MessageView::RequestVote(
                RequestVoteRPC {
                    term: self.current_term,
                    candidate_id: self.id,
                    last_log_index: self.last_index() as u64,
                    last_log_term: self.log.last().term,
                },
            ),
        }
    }

    /// The election clock of a node that does not lead: at the timeout it stands for election.
    pub open spec fn on_election_clock(self, timeout: u64) -> Step {
        if self.ticks >= self.election_timeout {
            let state = CoreView {
                current_term: (self.current_term + 1) as u64,
                state: RaftState::Candidate,
                votes_received: set![self.id],
                voted_for: Some(self.id),
                leader_id: None,
                unsaved_metadata: true,
                ..self.clock_restarted(timeout)
            };
            Step {
                state,
                actions: Seq::new(
                    state.peers.len(),
                    |i: int| state.vote_request_to(state.peers[i]),
                ),
            }
        } else {
            Step { state: self, actions: Seq::<ActionView>::empty() }
        }
    }

    /// One tick of the clock.
    pub open spec fn on_tick(self, timeout: u64) -> Step {
        let ticked = CoreView { ticks: (self.ticks + 1) as u64, ..self };
        if self.state == RaftState::Leader {
            ticked.on_heartbeat()
        } else {
            ticked.on_election_clock(timeout)
        }
    }

    /// The counters that a tick advances have room to do so, and a leader that is due to send
    /// knows where its peers stand.
    pub open spec fn can_tick(self) -> bool {
        &&& self.ticks < u64::MAX
        &&& self.state == RaftState::Leader && self.ticks + 1 >= self.heartbeat_interval
            ==> self.tracks_peers()
        &&& self.state != RaftState::Leader && self.ticks + 1 >= self.election_timeout
            ==> self.current_term < u64::MAX
    }

    /// Whether a log that ends at `index` in `term` is at least as complete as the own one.
    pub open spec fn up_to_date(self, term: u64, index: u64) -> bool {
        ||| term > self.log.last().term
        ||| term == self.log.last().term && index >= self.last_index()
    }

    /// Whether a candidate gets the vote of this node, which is in the candidate's term or later.
    pub open spec fn grants(self, req: RequestVoteRPC) -> bool {
        &&& req.term >= self.current_term
        &&& self.voted_for is None || self.voted_for == Some(req.candidate_id)
        &&& self.up_to_date(req.last_log_term, req.last_log_index)
    }

    /// A candidate asks for a vote.
    pub open spec fn on_request_vote(self, req: RequestVoteRPC, timeout: u64) -> Step {
        let joined = self.joined_term(req.term, timeout);
        let granted = joined.grants(req);
        let state = if granted {
            CoreView {
                voted_for: Some(req.candidate_id),
                unsaved_metadata: true,
                ..joined.clock_restarted(timeout)
            }
        } else {
            joined
        };
        Step {
            state,
            actions: seq![
                ActionView::SendMessage {
                    target: req.candidate_id,
                    message: MessageView::RequestVoteResponse(
                        RequestVoteResponseRPC {
                            id: joined.id,
                            term: joined.current_term,
                            vote_granted: granted,
                        },
                    ),
                },
            ],
        }
    }

    /// Whether more than half of the cluster has voted for this node.
    pub open spec fn has_won(self) -> bool {
        self.votes_received.len() > (self.peers.len() + 1) / 2
    }

    /// The winner of an election: it appends a no-op and takes every peer to have all of its log.
    pub open spec fn leading(self, timeout: u64) -> CoreView {
        let appended = self.appended(no_op(self.current_term));
        let next = (appended.last_index() + 1) as u64;
        let peers = self.peers.to_set();
        CoreView {
            state: RaftState::Leader,
            leader_id: Some(self.id),
            next_index: self.next_index.union_prefer_right(
                Map::new(|peer: u64| peers.contains(peer), |peer: u64| next),
            ),
            match_index: self.match_index.union_prefer_right(
                Map::new(|peer: u64| peers.contains(peer), |peer: u64| 0u64),
            ),
            ..appended.clock_restarted(timeout)
        }
    }

    /// A peer answers a vote request. Votes of an earlier term do not count.
    pub open spec fn on_request_vote_response(
        self,
        resp: RequestVoteResponseRPC,
        timeout: u64,
    ) -> Step {
        let joined = self.joined_term(resp.term, timeout);
        if joined.state == RaftState::Candidate && resp.vote_granted && resp.term
            == joined.current_term {
            let counted = CoreView {
                votes_received: joined.votes_received.insert(resp.id),
                ..joined
            };
            if counted.has_won() {
                let state = counted.leading(timeout);
                Step { state, actions: state.broadcast() }
            } else {
                Step { state: counted, actions: Seq::<ActionView>::empty() }
            }
        } else {
            Step { state: joined, actions: Seq::<ActionView>::empty() }
        }
    }

    // ------------------------------------------------------------------------- append entries

    /// The node after it has looked at the term of a leader's message: a candidate of the same
    /// term gives way to the leader.
    pub open spec fn facing_leader(self, term: u64, timeout: u64) -> CoreView {
        let joined = self.joined_term(term, timeout);
        if term == joined.current_term && joined.state == RaftState::Candidate {
            CoreView {
                state: RaftState::Follower,
                voted_for: None,
                unsaved_metadata: true,
                ..joined
            }
        } else {
            joined
        }
    }

    /// Whether the node follows a leader of `term`, which the node knows of already.
    pub open spec fn follows(self, term: u64) -> bool {
        self.state == RaftState::Follower && term >= self.current_term
    }

    /// The follower of a leader that it has just heard from.
    pub open spec fn following(self, leader: u64, timeout: u64) -> CoreView {
        CoreView { leader_id: Some(leader), ..self.clock_restarted(timeout) }
    }

    /// Whether the log agrees with the leader's at `index`. All up to the snapshot is agreed.
    pub open spec fn agrees_at(self, index: u64, term: u64) -> bool {
        ||| index <= self.base
        ||| index <= self.last_index() && self.term_at(index as int) == term
    }

    /// Whether the log holds the entry `entry` at `index` already.
    pub open spec fn holds(self, index: int, entry: EntryView) -> bool {
        ||| index <= self.base
        ||| index <= self.last_index() && self.term_at(index) == entry.term
    }

    /// The position, `from` or later, of the first of the entries after index `prev` that the log
    /// does not hold.
    pub open spec fn first_missing(self, prev: u64, entries: Seq<EntryView>, from: nat) -> nat
        decreases entries.len() - from,
    {
        if from >= entries.len() {
            entries.len()
        } else if self.holds(prev + 1 + from, entries[from as int]) {
            self.first_missing(prev, entries, from + 1)
        } else {
            from
        }
    }

    /// The log takes over the entries after index `prev`. The first one that it does not hold
    /// ends what is kept of the log.
    pub open spec fn merged(self, prev: u64, entries: Seq<EntryView>) -> CoreView {
        let k = self.first_missing(prev, entries, 0);
        if k == entries.len() {
            self
        } else {
            CoreView {
                log: self.log.take(prev + 1 + k - self.base) + entries.skip(k as int),
                unsaved_from: self.unsaved_at((prev + 1 + k) as u64),
                ..self
            }
        }
    }

    /// One action for each entry after index `from` up to `to`, in order.
    pub open spec fn applications(self, from: u64, to: u64) -> Seq<ActionView> {
        Seq::new(
            if to >= from {
                (to - from) as nat
            } else {
                0
            },
            |i: int|
                ActionView::ApplyToStateMachine {
                    index: (from + 1 + i) as u64,
                    command: self.log[from + 1 + i - self.base].command,
                },
        )
    }

    /// The commit index after word from the leader that it has committed up to `leader_commit`.
    pub open spec fn commit_told(self, leader_commit: u64) -> u64 {
        if leader_commit > self.commit_index {
            lower(leader_commit, self.last_index() as u64)
        } else {
            self.commit_index
        }
    }

    /// The answer to a leader: whether the entries were taken over, and up to which index the log is
    /// known to match the leader's or, if they were not, where the log ends.
    pub open spec fn append_answer(self, leader: u64, success: bool, index: u64) -> ActionView {
        ActionView::SendMessage {
            target: leader,
            message: MessageView::AppendEntriesResponse(
                AppendEntriesResponseRPC {
                    id: self.id,
                    term: self.current_term,
                    match_index: index,
                    success,
                    first_conflicting_index: None,
                    first_conflicting_term: None,
                },
            ),
        }
    }

    /// The answer to a leader whose entries do not fit, or that is none.
    pub open spec fn append_refusal(self, leader: u64) -> ActionView {
        self.append_answer(leader, false, self.last_index() as u64)
    }

    /// A leader sends entries, or just its heartbeat.
    pub open spec fn on_append_entries(self, req: AppendEntriesView, timeout: u64) -> Step {
        let facing = self.facing_leader(req.term, timeout);
        if !facing.follows(req.term) {
            Step { state: facing, actions: seq![facing.append_refusal(req.leader_id)] }
        } else {
            let following = facing.following(req.leader_id, timeout);
            if !following.agrees_at(req.prev_log_index, req.prev_log_term) {
                Step {
                    state: following,
                    actions: seq![following.append_refusal(req.leader_id)],
                }
            } else {
                let merged = following.merged(req.prev_log_index, req.entries);
                let commit_index = merged.commit_told(req.leader_commit);
                Step {
                    state: CoreView { commit_index, last_applied: commit_index, ..merged },
                    actions: merged.applications(merged.commit_index, commit_index).push(
                        merged.append_answer(
                            req.leader_id,
                            true,
                            (req.prev_log_index + req.entries.len()) as u64,
                        ),
                    ),
                }
            }
        }
    }

    /// The new entries fit below the highest index there is, and a commit index that moves does
    /// not move back: entries up to it are all there.
    pub open spec fn can_append_entries(self, req: AppendEntriesView) -> bool {
        let facing = self.facing_leader(req.term, self.election_timeout);
        facing.follows(req.term) && facing.agrees_at(req.prev_log_index, req.prev_log_term) ==> {
            &&& req.prev_log_index + 1 + req.entries.len() <= u64::MAX
            &&& req.leader_commit > facing.commit_index ==> facing.commit_index <= facing.merged(
                req.prev_log_index,
                req.entries,
            ).last_index()
        }
    }

    // ---------------------------------------------------------------- answers to append entries

    /// The highest index after `low` up to `high` that holds an entry of the current term, or
    /// `low` where there is none.
    pub open spec fn newest_of_term(self, low: u64, high: u64) -> u64
        decreases high,
    {
        if high <= low {
            low
        } else if self.term_at(high as int) == self.current_term {
            high
        } else {
            self.newest_of_term(low, (high - 1) as u64)
        }
    }

    /// The leader learns that `peer` holds every entry up to `index`.
    pub open spec fn progressed(self, peer: u64, index: u64) -> CoreView {
        CoreView {
            match_index: self.match_index.insert(peer, index),
            next_index: self.next_index.insert(peer, (index + 1) as u64),
            ..self
        }
    }

    /// The highest index that more than half of the servers hold, as far as this one knows.
    pub open spec fn replicated_index(self) -> u64 {
        majority_index(self.match_index, self.last_index() as u64)
    }

    /// Commits what a majority holds, as far as it ends in an entry of the current term, and
    /// applies everything that is committed and not applied yet.
    pub open spec fn committed(self) -> Step {
        let commit_index = self.newest_of_term(self.commit_index, self.replicated_index());
        Step {
            state: CoreView { commit_index, last_applied: commit_index, ..self },
            actions: self.applications(self.last_applied, commit_index),
        }
    }

    /// One step back in what to send to `peer`.
    pub open spec fn stepped_back(self, peer: u64) -> CoreView {
        if self.next_index.dom().contains(peer) {
            CoreView {
                next_index: self.next_index.insert(peer, (self.next_index[peer] - 1) as u64),
                ..self
            }
        } else {
            self
        }
    }

    /// Whether the answer is one to the leader of its term.
    pub open spec fn heeds(self, resp: AppendEntriesResponseRPC) -> bool {
        self.state == RaftState::Leader && resp.term == self.current_term
    }

    /// A follower answers. Only the leader of the answer's term acts on it.
    pub open spec fn on_append_entries_response(
        self,
        resp: AppendEntriesResponseRPC,
        timeout: u64,
    ) -> Step {
        let joined = self.joined_term(resp.term, timeout);
        if !joined.heeds(resp) {
            Step { state: joined, actions: Seq::<ActionView>::empty() }
        } else if resp.success {
            joined.progressed(resp.id, resp.match_index).committed()
        } else {
            let state = joined.stepped_back(resp.id);
            Step { state, actions: seq![state.replication_to(resp.id)] }
        }
    }

    /// What the answer leads to lies within the log.
    pub open spec fn can_append_entries_response(self, resp: AppendEntriesResponseRPC) -> bool {
        self.heeds(resp) ==> if resp.success {
            let replicated = self.progressed(resp.id, resp.match_index).replicated_index();
            &&& resp.match_index < u64::MAX
            &&& replicated > self.commit_index ==> replicated <= self.last_index()
        } else {
            &&& self.next_index.dom().contains(resp.id) ==> self.next_index[resp.id] >= 1
            &&& self.stepped_back(resp.id).tracks(resp.id)
        }
    }

    // ------------------------------------------------------------------------------- snapshots

    /// The entries up to `snapshot.last_applied` give way to a snapshot.
    pub open spec fn compacted(self, snapshot: SnapshotMetadata) -> CoreView {
        let index = snapshot.last_applied;
        CoreView {
            base: index,
            log: seq![placeholder(snapshot.last_applied_term)] + self.log.skip(
                index - self.base + 1,
            ),
            unsaved_from: if index < self.last_index() {
                Some((index + 1) as u64)
            } else {
                None
            },
            ..self
        }
    }

    /// The answer to a leader that sent a snapshot.
    pub open spec fn snapshot_answer(self, leader: u64, index: u64) -> ActionView {
        ActionView::SendMessage {
            target: leader,
            message: MessageView::InstallSnapshotResponse(
                InstallSnapshotResponseRPC {
                    id: self.id,
                    term: self.current_term,
                    last_included_index: index,
                },
            ),
        }
    }

    /// Whether a snapshot may cover the entries up to `index`.
    pub open spec fn can_compact(self, index: u64) -> bool {
        self.base <= index <= self.last_applied && index <= self.last_index()
    }

    /// The entries that a node keeps when it installs a snapshot: those after the last entry that
    /// the snapshot covers, if the log has that entry.
    pub open spec fn entries_after(self, index: u64, term: u64) -> Seq<EntryView> {
        if self.base < index <= self.last_index() && self.term_at(index as int) == term {
            self.log.skip(index - self.base + 1)
        } else {
            Seq::<EntryView>::empty()
        }
    }

    /// The node after it has installed a snapshot. What it keeps of its log is handed out for
    /// stable storage along with the snapshot.
    pub open spec fn installed(self, index: u64, term: u64) -> CoreView {
        CoreView {
            base: index,
            log: seq![placeholder(term)] + self.entries_after(index, term),
            commit_index: index,
            last_applied: index,
            unsaved_from: None,
            ..self
        }
    }

    /// What stable storage needs when a snapshot is installed: the snapshot, which clears the log,
    /// and the entries that the node keeps.
    pub open spec fn installation(self, req: InstallSnapshotView) -> Seq<ActionView> {
        let kept = self.entries_after(req.last_included_index, req.last_included_term);
        let snapshot = ActionView::InstallSnapshot {
            last_included_index: req.last_included_index,
            last_included_term: req.last_included_term,
            data: req.data,
        };
        if kept.len() == 0 {
            seq![snapshot]
        } else {
            seq![
                snapshot,
                ActionView::PersistLogEntries {
                    start_index: (req.last_included_index + 1) as u64,
                    entries: kept,
                },
            ]
        }
    }

    /// A leader sends a snapshot in place of entries that it no longer has.
    pub open spec fn on_install_snapshot(self, req: InstallSnapshotView, timeout: u64) -> Step {
        let facing = self.facing_leader(req.term, timeout);
        if !facing.follows(req.term) {
            Step { state: facing, actions: seq![facing.snapshot_answer(req.leader_id, facing.base)] }
        } else {
            let following = facing.following(req.leader_id, timeout);
            let answer = following.snapshot_answer(req.leader_id, req.last_included_index);
            if req.last_included_index <= following.commit_index {
                Step { state: following, actions: seq![answer] }
            } else {
                Step {
                    state: following.installed(req.last_included_index, req.last_included_term),
                    actions: following.installation(req).push(answer),
                }
            }
        }
    }

    /// A follower has taken over a snapshot.
    pub open spec fn on_install_snapshot_response(
        self,
        resp: InstallSnapshotResponseRPC,
        timeout: u64,
    ) -> CoreView {
        let joined = self.joined_term(resp.term, timeout);
        if joined.state == RaftState::Leader && resp.term == joined.current_term {
            joined.progressed(resp.id, resp.last_included_index)
        } else {
            joined
        }
    }

    /// Whether the log has room for one more entry.
    pub open spec fn has_room(self) -> bool {
        self.last_index() + 1 < u64::MAX
    }

    /// Whether a leader can take a proposal.
    pub open spec fn can_propose(self) -> bool {
        self.state == RaftState::Leader ==> self.tracks_peers() && self.has_room()
    }

    /// Whether the node can take the message. Those that are left out would lead it to entries
    /// that are not in its log.
    pub open spec fn can_take(self, message: MessageView) -> bool {
        match message {
            MessageView::RequestVote(_) => true,
            MessageView::RequestVoteResponse(_) => self.has_room(),
            MessageView::AppendEntries(req) => self.can_append_entries(req),
            MessageView::AppendEntriesResponse(resp) => self.can_append_entries_response(resp),
            MessageView::InstallSnapshot(req) => req.last_included_index < u64::MAX,
            MessageView::InstallSnapshotResponse(resp) => resp.last_included_index < u64::MAX,
        }
    }

    /// What a message makes of the node.
    pub open spec fn on_message(self, message: MessageView, timeout: u64) -> Step {
        match message {
            MessageView::RequestVote(req) => self.on_request_vote(req, timeout),
            MessageView::RequestVoteResponse(resp) => self.on_request_vote_response(resp, timeout),
            MessageView::AppendEntries(req) => self.on_append_entries(req, timeout),
            MessageView::AppendEntriesResponse(resp) => self.on_append_entries_response(
                resp,
                timeout,
            ),
            MessageView::InstallSnapshot(req) => self.on_install_snapshot(req, timeout),
            MessageView::InstallSnapshotResponse(resp) => Step {
                state: self.on_install_snapshot_response(resp, timeout),
                actions: Seq::<ActionView>::empty(),
            },
        }
    }

    // ------------------------------------------------------------------------ stable storage

    /// What has to be written to stable storage before anything else is done.
    pub open spec fn persistence(self) -> Seq<ActionView> {
        let metadata = ActionView::PersistMetadata {
            term: self.current_term,
            voted_for: self.voted_for,
        };
        let entries = match self.unsaved_from {
            Some(from) => seq![
                ActionView::PersistLogEntries {
                    start_index: from,
                    entries: self.log.skip(from - self.base),
                },
            ],
            None => Seq::<ActionView>::empty(),
        };
        if self.unsaved_metadata {
            seq![metadata] + entries
        } else {
            entries
        }
    }

    /// Nothing has changed since the last write to stable storage.
    pub open spec fn is_saved(self) -> bool {
        !self.unsaved_metadata && self.unsaved_from is None
    }

    /// The state once that has been handed out.
    pub open spec fn saved(self) -> CoreView {
        CoreView { unsaved_metadata: false, unsaved_from: None, ..self }
    }

    // ------------------------------------------------------------------------------------ reads

    /// Whether the entry that a read waits for is committed.
    pub open spec fn is_ready(self) -> spec_fn(ReadBarrier) -> bool {
        |barrier: ReadBarrier|
            barrier.term == self.current_term && barrier.index <= self.commit_index
    }

    /// Whether the entry that a read waits for may still be committed.
    pub open spec fn is_waiting(self) -> spec_fn(ReadBarrier) -> bool {
        |barrier: ReadBarrier|
            barrier.term == self.current_term && barrier.index > self.commit_index
    }

    /// The reads whose entry is committed, in the order of the requests.
    pub open spec fn ready_reads(self) -> Seq<ReadBarrier> {
        if self.state == RaftState::Leader {
            self.read_barriers.filter(self.is_ready())
        } else {
            Seq::<ReadBarrier>::empty()
        }
    }

    /// The word that those reads can go ahead.
    pub open spec fn read_answers(self) -> Seq<ActionView> {
        self.ready_reads().map_values(
            |barrier: ReadBarrier| ActionView::ReadBarrierReady { id: barrier.index },
        )
    }

    /// The reads that still wait. Those of an earlier term never become ready.
    pub open spec fn waiting_reads(self) -> Seq<ReadBarrier> {
        if self.state == RaftState::Leader {
            self.read_barriers.filter(self.is_waiting())
        } else {
            Seq::<ReadBarrier>::empty()
        }
    }
}

impl Step {
    /// The step with what stable storage needs in front of its actions.
    pub open spec fn persisted(self) -> Step {
        Step { state: self.state.saved(), actions: self.state.persistence() + self.actions }
    }

    /// The step as its driver carries it out: what stable storage needs comes first, and the reads
    /// that can go ahead come last.
    pub open spec fn settled(self) -> Step {
        let saved = self.state.saved();
        Step {
            state: CoreView { read_barriers: saved.waiting_reads(), ..saved },
            actions: self.state.persistence() + self.actions + saved.read_answers(),
        }
    }
}

} // verus!
