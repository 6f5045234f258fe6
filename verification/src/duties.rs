//! What a node owes to each input: when it has to act, what its actions say, and what it leaves as
//! it was. The laws speak of the fields of the node, of the input and of the actions.

use crate::config::{AddendumView, PersistedMetadata, ProposalError, SnapshotView};
use crate::driver::{refusal, refuses_all, started, DriverView, EffectView};
use crate::model::{
    heartbeat_or_default, holders, is_other, majority_index, CoreView, ReadBarrier, Step,
};
use crate::raft::{lemma_first_missing, lemma_merged_ignores_clock};
use crate::replication::{lemma_majority_exists, lemma_newest_of_term};
use crate::types::{
    ActionView, AppendEntriesResponseRPC, AppendEntriesView, EntryView, InstallSnapshotResponseRPC,
    InstallSnapshotView, MessageView, RaftState, RequestVoteRPC, RequestVoteResponseRPC,
    SnapshotMetadata,
};
use vstd::prelude::*;

verus! {

// -------------------------------------------------------------------------------------- elections

/// A vote is granted whenever the rule asks for it and never otherwise: the voter has no vote in
/// the candidate's term but for that candidate, and the last entry of the candidate's log is of a
/// later term than the voter's own, or of the same term and at the same index or a later one. The
/// answer says so, in the term of the voter, and a vote that is granted is on record. Whoever asks
/// in a later term has the voter join it as a follower. Nothing else changes.
pub proof fn law_votes_are_granted_as_asked(node: CoreView, req: RequestVoteRPC, timeout: u64)
    requires
        node.log.len() >= 1,
    ensures
        ({
            let step = node.on_request_vote(req, timeout);
            let later = req.term > node.current_term;
            let free = later || (req.term == node.current_term && (node.voted_for is None
                || node.voted_for == Some(req.candidate_id)));
            let own_term = node.log[node.log.len() - 1].term;
            let own_index = node.base + node.log.len() - 1;
            let complete = req.last_log_term > own_term || (req.last_log_term == own_term
                && req.last_log_index >= own_index);
            let granted = free && complete;
            let term = if later {
                req.term
            } else {
                node.current_term
            };
            &&& step.actions == seq![
                ActionView::SendMessage {
                    target: req.candidate_id,
                    message: MessageView::RequestVoteResponse(
                        RequestVoteResponseRPC { id: node.id, term, vote_granted: granted },
                    ),
                },
            ]
            &&& step.state.current_term == term
            &&& step.state.voted_for == if granted {
                Some(req.candidate_id)
            } else if later {
                None
            } else {
                node.voted_for
            }
            &&& step.state.state == if later {
                RaftState::Follower
            } else {
                node.state
            }
            &&& step.state.leader_id == if later {
                None
            } else {
                node.leader_id
            }
            &&& granted || later ==> step.state.ticks == 0 && step.state.election_timeout
                == timeout && step.state.unsaved_metadata
            &&& !granted && !later ==> step.state == node
            &&& step.state == (CoreView {
                current_term: step.state.current_term,
                voted_for: step.state.voted_for,
                state: step.state.state,
                leader_id: step.state.leader_id,
                ticks: step.state.ticks,
                election_timeout: step.state.election_timeout,
                unsaved_metadata: step.state.unsaved_metadata,
                ..node
            })
        }),
{
}

/// A candidate that has the votes of more than half of all servers leads, in its term and from that
/// very vote on: it appends an entry without a command, takes every peer to have all of its log and
/// to have confirmed none of it, and sends one message to each peer. Before that, a vote is counted
/// and nothing else happens. What is no vote of its term for a candidate changes nothing.
pub proof fn law_majorities_elect_leaders(
    node: CoreView,
    resp: RequestVoteResponseRPC,
    timeout: u64,
)
    requires
        node.wf(),
        node.base + node.log.len() < u64::MAX,
        resp.term <= node.current_term,
    ensures
        ({
            let step = node.on_request_vote_response(resp, timeout);
            let next = step.state;
            let voters = node.votes_received.insert(resp.id);
            let counts = node.state == RaftState::Candidate && resp.vote_granted && resp.term
                == node.current_term;
            let end = (node.base + node.log.len() + 1) as u64;
            if !counts {
                step == (Step { state: node, actions: Seq::<ActionView>::empty() })
            } else if 2 * voters.len() > node.peers.len() + 1 {
                &&& next.state == RaftState::Leader
                &&& next.leader_id == Some(node.id)
                &&& next.log == node.log.push(
                    EntryView { term: node.current_term, command: Seq::<u8>::empty() },
                )
                &&& forall|i: int|
                    0 <= i < node.peers.len() ==> next.next_index.contains_pair(
                        #[trigger] node.peers[i],
                        end,
                    ) && next.match_index.contains_pair(node.peers[i], 0)
                &&& forall|peer: u64|
                    !node.peers.contains(peer) ==> {
                        &&& next.next_index.dom().contains(peer)
                            == node.next_index.dom().contains(peer)
                        &&& #[trigger] next.match_index.dom().contains(peer)
                            == node.match_index.dom().contains(peer)
                        &&& node.next_index.dom().contains(peer) ==> next.next_index[peer]
                            == node.next_index[peer]
                        &&& node.match_index.dom().contains(peer) ==> next.match_index[peer]
                            == node.match_index[peer]
                    }
                &&& next.ticks == 0
                &&& next == (CoreView {
                    state: next.state,
                    leader_id: next.leader_id,
                    log: next.log,
                    next_index: next.next_index,
                    match_index: next.match_index,
                    votes_received: voters,
                    ticks: 0,
                    election_timeout: timeout,
                    unsaved_from: next.unsaved_from,
                    ..node
                })
                &&& step.actions.len() == node.peers.len()
                &&& forall|i: int|
                    0 <= i < node.peers.len() ==> brings_up_to_date(
                        next,
                        node.peers[i],
                        #[trigger] step.actions[i],
                    )
            } else {
                step == (Step {
                    state: CoreView { votes_received: voters, ..node },
                    actions: Seq::<ActionView>::empty(),
                })
            }
        }),
{
    let step = node.on_request_vote_response(resp, timeout);
    let next = step.state;
    if next.state == RaftState::Leader && node.state == RaftState::Candidate {
        assert forall|i: int| 0 <= i < node.peers.len() implies next.next_index.contains_pair(
            #[trigger] node.peers[i],
            (node.base + node.log.len() + 1) as u64,
        ) && next.match_index.contains_pair(node.peers[i], 0) by {
            assert(node.peers.to_set().contains(node.peers[i]));
        }
        assert forall|i: int| 0 <= i < node.peers.len() implies brings_up_to_date(
            next,
            node.peers[i],
            #[trigger] step.actions[i],
        ) by {
            assert(node.peers.to_set().contains(node.peers[i]));
        }
    }
}

/// Whether an action brings a peer of a leader up to date: it carries all entries from the index on
/// that the peer is taken to need next, with the place and the term of the entry before them, or
/// the snapshot where those entries are gone. A peer that nothing is known of is taken to have it all.
pub open spec fn brings_up_to_date(leader: CoreView, peer: u64, action: ActionView) -> bool {
    let end = leader.base + leader.log.len();
    let next = if leader.next_index.dom().contains(peer) {
        leader.next_index[peer] as int
    } else {
        end
    };
    if next <= leader.base {
        action == (ActionView::SendInstallSnapshot {
            target: peer,
            term: leader.current_term,
            last_included_index: leader.base,
            last_included_term: leader.log[0].term,
        })
    } else {
        &&& action matches ActionView::SendMessage { target, message }
        &&& target == peer
        &&& message matches MessageView::AppendEntries(req)
        &&& req.term == leader.current_term
        &&& req.leader_id == leader.id
        &&& req.leader_commit == leader.commit_index
        &&& next <= end ==> {
            &&& req.prev_log_index == next - 1
            &&& req.prev_log_term == leader.log[next - 1 - leader.base].term
            &&& req.entries.len() == end - next
            &&& forall|j: int|
                0 <= j < end - next ==> #[trigger] req.entries[j] == leader.log[next - leader.base
                    + j]
        }
    }
}

/// The clock of a node that does not lead counts up to its timeout. There it stands for election:
/// in the next term, with its own vote and no other, and with a request for their vote to each
/// peer, which says where its log ends. Before, nothing but the clock moves.
pub proof fn law_timeouts_start_elections(node: CoreView, timeout: u64)
    requires
        node.log.len() >= 1,
        node.base + node.log.len() <= u64::MAX,
        node.state != RaftState::Leader,
        node.ticks < u64::MAX,
        node.current_term < u64::MAX,
    ensures
        ({
            let step = node.on_tick(timeout);
            if node.ticks + 1 < node.election_timeout {
                step == (Step {
                    state: CoreView { ticks: (node.ticks + 1) as u64, ..node },
                    actions: Seq::<ActionView>::empty(),
                })
            } else {
                &&& step.state == (CoreView {
                    state: RaftState::Candidate,
                    current_term: (node.current_term + 1) as u64,
                    voted_for: Some(node.id),
                    votes_received: Set::<u64>::empty().insert(node.id),
                    leader_id: None,
                    ticks: 0,
                    election_timeout: timeout,
                    unsaved_metadata: true,
                    ..node
                })
                &&& step.actions.len() == node.peers.len()
                &&& forall|i: int|
                    0 <= i < node.peers.len() ==> #[trigger] step.actions[i] == (
                    ActionView::SendMessage {
                        target: node.peers[i],
                        message: MessageView::RequestVote(
                            RequestVoteRPC {
                                term: (node.current_term + 1) as u64,
                                candidate_id: node.id,
                                last_log_index: (node.base + node.log.len() - 1) as u64,
                                last_log_term: node.log[node.log.len() - 1].term,
                            },
                        ),
                    })
            }
        }),
{
}

/// The clock of a leader counts up to the heartbeat interval. There one message goes to each peer
/// and the clock starts over. Before, nothing but the clock moves.
pub proof fn law_intervals_bring_heartbeats(node: CoreView, timeout: u64)
    requires
        node.log.len() >= 1,
        node.base + node.log.len() <= u64::MAX,
        node.state == RaftState::Leader,
        node.ticks < u64::MAX,
    ensures
        ({
            let step = node.on_tick(timeout);
            if node.ticks + 1 < node.heartbeat_interval {
                step == (Step {
                    state: CoreView { ticks: (node.ticks + 1) as u64, ..node },
                    actions: Seq::<ActionView>::empty(),
                })
            } else {
                &&& step.state == (CoreView { ticks: 0, ..node })
                &&& step.actions.len() == node.peers.len()
                &&& forall|i: int|
                    0 <= i < node.peers.len() ==> brings_up_to_date(
                        node,
                        node.peers[i],
                        #[trigger] step.actions[i],
                    )
            }
        }),
        // the same when the clock has been moved already
        ({
            let step = node.on_heartbeat();
            if node.ticks < node.heartbeat_interval {
                step == (Step { state: node, actions: Seq::<ActionView>::empty() })
            } else {
                &&& step.state == (CoreView { ticks: 0, ..node })
                &&& step.actions.len() == node.peers.len()
                &&& forall|i: int|
                    0 <= i < node.peers.len() ==> brings_up_to_date(
                        node,
                        node.peers[i],
                        #[trigger] step.actions[i],
                    )
            }
        }),
        // and whenever a leader is asked to send
        node.broadcast().len() == node.peers.len(),
        forall|i: int|
            0 <= i < node.peers.len() ==> brings_up_to_date(
                node,
                node.peers[i],
                #[trigger] node.broadcast()[i],
            ),
{
}

// ------------------------------------------------------------------------------------------ terms

/// The term that a message is of.
pub open spec fn term_of(message: MessageView) -> u64 {
    match message {
        MessageView::RequestVote(req) => req.term,
        MessageView::RequestVoteResponse(resp) => resp.term,
        MessageView::AppendEntries(req) => req.term,
        MessageView::AppendEntriesResponse(resp) => resp.term,
        MessageView::InstallSnapshot(req) => req.term,
        MessageView::InstallSnapshotResponse(resp) => resp.term,
    }
}

/// A node that hears of a later term is in that term from then on, as a follower, whatever it was.
/// It has no vote there but for the candidate that the message is from, and knows no leader but the
/// one that the message is from. An answer of a later term does nothing more. A message of an
/// earlier term leaves the node as it is: an answer is passed over, and a request is turned down in
/// the node's own term.
pub proof fn law_the_latest_term_counts(node: CoreView, message: MessageView, timeout: u64)
    requires
        node.log.len() >= 1,
        node.base + node.log.len() <= u64::MAX,
    ensures
        ({
            let step = node.on_message(message, timeout);
            let next = step.state;
            let term = term_of(message);
            &&& next.current_term == if term > node.current_term {
                term
            } else {
                node.current_term
            }
            &&& term > node.current_term ==> {
                &&& next.state == RaftState::Follower
                &&& next.unsaved_metadata
                &&& next.ticks == 0
                &&& next.election_timeout == timeout
                &&& next.voted_for == match message {
                    MessageView::RequestVote(_) => next.voted_for,
                    _ => None,
                }
                &&& next.leader_id == match message {
                    MessageView::AppendEntries(req) => Some(req.leader_id),
                    MessageView::InstallSnapshot(req) => Some(req.leader_id),
                    _ => None,
                }
                &&& message is RequestVoteResponse || message is AppendEntriesResponse
                    || message is InstallSnapshotResponse ==> step == (Step {
                    state: CoreView {
                        current_term: term,
                        state: RaftState::Follower,
                        voted_for: None,
                        leader_id: None,
                        ticks: 0,
                        election_timeout: timeout,
                        unsaved_metadata: true,
                        ..node
                    },
                    actions: Seq::<ActionView>::empty(),
                })
            }
            &&& term < node.current_term ==> next == node && match message {
                MessageView::RequestVote(req) => step.actions == seq![
                    ActionView::SendMessage {
                        target: req.candidate_id,
                        message: MessageView::RequestVoteResponse(
                            RequestVoteResponseRPC {
                                id: node.id,
                                term: node.current_term,
                                vote_granted: false,
                            },
                        ),
                    },
                ],
                MessageView::AppendEntries(req) => step.actions == seq![
                    ActionView::SendMessage {
                        target: req.leader_id,
                        message: MessageView::AppendEntriesResponse(
                            AppendEntriesResponseRPC {
                                id: node.id,
                                term: node.current_term,
                                match_index: (node.base + node.log.len() - 1) as u64,
                                success: false,
                                first_conflicting_index: None,
                                first_conflicting_term: None,
                            },
                        ),
                    },
                ],
                MessageView::InstallSnapshot(req) => step.actions == seq![
                    ActionView::SendMessage {
                        target: req.leader_id,
                        message: MessageView::InstallSnapshotResponse(
                            InstallSnapshotResponseRPC {
                                id: node.id,
                                term: node.current_term,
                                last_included_index: node.base,
                            },
                        ),
                    },
                ],
                _ => step.actions == Seq::<ActionView>::empty(),
            }
        }),
{
}

// ------------------------------------------------------------------------------------ replication

/// A proposal goes to the end of the leader's log, in the leader's term and as it was proposed, and
/// one message that brings it up to date goes to each peer at once. The clock starts over, since
/// this is as good as a heartbeat. Nothing else changes.
pub proof fn law_proposals_are_logged_and_sent(node: CoreView, command: Seq<u8>)
    requires
        node.log.len() >= 1,
        node.base + node.log.len() < u64::MAX,
    ensures
        ({
            let step = node.on_propose(command);
            &&& step.state == (CoreView {
                log: node.log.push(EntryView { term: node.current_term, command }),
                ticks: 0,
                unsaved_from: match node.unsaved_from {
                    Some(from) if from <= node.base + node.log.len() => Some(from),
                    _ => Some((node.base + node.log.len()) as u64),
                },
                ..node
            })
            &&& step.actions.len() == node.peers.len()
            &&& forall|i: int|
                0 <= i < node.peers.len() ==> brings_up_to_date(
                    step.state,
                    node.peers[i],
                    #[trigger] step.actions[i],
                )
        }),
{
}

/// A follower accepts the entries of a leader if and only if its log has the entry before them, or
/// a snapshot in its place, and it has not heard of a later term. A node that leads in that very
/// term turns them down. Whether they are accepted or not, whoever sends entries in a term that has
/// not passed is the leader of that term to the node, which follows it and starts its clock over.
/// The answer, which is the last action, says what became of it and where the node's log ends, or
/// up to where it matches the leader's.
pub proof fn law_leaders_are_answered(node: CoreView, req: AppendEntriesView, timeout: u64)
    requires
        node.wf(),
        has_entry(node, req.prev_log_index as int, req.prev_log_term) ==> req.prev_log_index
            + req.entries.len() <= u64::MAX,
    ensures
        ({
            let step = node.on_append_entries(req, timeout);
            let next = step.state;
            let last = node.base + node.log.len() - 1;
            let heard = req.term > node.current_term || (req.term == node.current_term
                && node.state != RaftState::Leader);
            let fits = req.prev_log_index <= node.base || (req.prev_log_index <= last
                && node.log[req.prev_log_index - node.base].term == req.prev_log_term);
            let answer = ActionView::SendMessage {
                target: req.leader_id,
                message: MessageView::AppendEntriesResponse(
                    AppendEntriesResponseRPC {
                        id: node.id,
                        term: next.current_term,
                        match_index: if heard && fits {
                            (req.prev_log_index + req.entries.len()) as u64
                        } else {
                            last as u64
                        },
                        success: heard && fits,
                        first_conflicting_index: None,
                        first_conflicting_term: None,
                    },
                ),
            };
            &&& step.actions.len() >= 1
            &&& step.actions[step.actions.len() - 1] == answer
            &&& !heard ==> step == (Step { state: node, actions: seq![answer] })
            &&& heard ==> {
                &&& next.current_term == req.term
                &&& next.state == RaftState::Follower
                &&& next.leader_id == Some(req.leader_id)
                &&& next.ticks == 0
                &&& next.election_timeout == timeout
                &&& next.voted_for == if req.term == node.current_term && node.state
                    == RaftState::Follower {
                    node.voted_for
                } else {
                    None
                }
                &&& next.unsaved_metadata == (node.unsaved_metadata || req.term
                    > node.current_term || node.state == RaftState::Candidate)
                &&& next == (CoreView {
                    current_term: next.current_term,
                    state: next.state,
                    leader_id: next.leader_id,
                    ticks: next.ticks,
                    election_timeout: next.election_timeout,
                    voted_for: next.voted_for,
                    log: next.log,
                    commit_index: next.commit_index,
                    last_applied: next.last_applied,
                    unsaved_metadata: next.unsaved_metadata,
                    unsaved_from: next.unsaved_from,
                    ..node
                })
            }
            &&& heard && !fits ==> {
                &&& step.actions.len() == 1
                &&& next.log == node.log
                &&& next.commit_index == node.commit_index
                &&& next.last_applied == node.last_applied
                &&& next.unsaved_from == node.unsaved_from
            }
        }),
{
    let following = node.facing_leader(req.term, timeout).following(req.leader_id, timeout);
    let merged = following.merged(req.prev_log_index, req.entries);
    assert(merged.id == node.id);
}

/// Whether a log has an entry of the given term at an index, or a snapshot in its place.
pub open spec fn has_entry(node: CoreView, index: int, term: u64) -> bool {
    index <= node.base || (index < node.base + node.log.len() && node.log[index - node.base].term
        == term)
}

/// Entries that a follower accepts end up in its log, each one at its place. Those that it has
/// already stay, with all that follows them, as long as there is none that it lacks; from the first
/// one on that it lacks, the leader's entries take the place of whatever was there. Only what has
/// changed is marked for stable storage.
pub proof fn law_accepted_entries_are_taken_over(
    node: CoreView,
    req: AppendEntriesView,
    timeout: u64,
    k: int,
)
    requires
        node.wf(),
        req.prev_log_index + 1 + req.entries.len() <= u64::MAX,
        req.term > node.current_term || (req.term == node.current_term && node.state
            != RaftState::Leader),
        has_entry(node, req.prev_log_index as int, req.prev_log_term),
        0 <= k <= req.entries.len(),
        forall|i: int|
            0 <= i < k ==> has_entry(
                node,
                req.prev_log_index + 1 + i,
                (#[trigger] req.entries[i]).term,
            ),
        k < req.entries.len() ==> !has_entry(
            node,
            req.prev_log_index + 1 + k,
            req.entries[k].term,
        ),
    ensures
        ({
            let next = node.on_append_entries(req, timeout).state;
            let from = req.prev_log_index + 1 + k;
            if k == req.entries.len() {
                &&& next.log == node.log
                &&& next.unsaved_from == node.unsaved_from
            } else {
                &&& node.base < from <= node.base + node.log.len()
                &&& next.log == node.log.take(from - node.base) + req.entries.skip(k)
                &&& next.unsaved_from == match node.unsaved_from {
                    Some(earlier) if earlier <= from => Some(earlier),
                    _ => Some(from as u64),
                }
            }
        }),
{
    let following = node.facing_leader(req.term, timeout).following(req.leader_id, timeout);
    lemma_first_missing(following, req.prev_log_index, req.entries, 0);
    lemma_missing_at(following, req.prev_log_index, req.entries, 0, k);
    if 0 < k {
        assert(has_entry(node, req.prev_log_index + k, req.entries[k - 1].term));
    }
}

proof fn lemma_missing_at(node: CoreView, prev: u64, entries: Seq<EntryView>, from: nat, k: int)
    requires
        from <= k <= entries.len(),
        forall|i: int|
            from <= i < k ==> has_entry(node, prev + 1 + i, (#[trigger] entries[i]).term),
        k < entries.len() ==> !has_entry(node, prev + 1 + k, entries[k].term),
    ensures
        node.first_missing(prev, entries, from) == k,
    decreases entries.len() - from,
{
    if from < k {
        assert(has_entry(node, prev + 1 + from, entries[from as int].term));
        lemma_missing_at(node, prev, entries, from + 1, k);
    }
}

/// A follower that accepts entries commits all that the leader has committed, as far as its log
/// goes, and applies each of those entries at once, in order and with the command that its log
/// holds. It applies nothing else.
pub proof fn law_followers_commit_with_their_leader(
    node: CoreView,
    req: AppendEntriesView,
    timeout: u64,
)
    requires
        node.wf(),
        node.can_append_entries(req),
        req.prev_log_index + 1 + req.entries.len() <= u64::MAX,
        req.term > node.current_term || (req.term == node.current_term && node.state
            != RaftState::Leader),
        has_entry(node, req.prev_log_index as int, req.prev_log_term),
    ensures
        ({
            let step = node.on_append_entries(req, timeout);
            let next = step.state;
            let last = next.base + next.log.len() - 1;
            &&& next.commit_index == if req.leader_commit <= node.commit_index {
                node.commit_index as int
            } else if req.leader_commit <= last {
                req.leader_commit as int
            } else {
                last
            }
            &&& next.last_applied == next.commit_index
            &&& next.commit_index >= node.commit_index
            &&& step.actions.len() == next.commit_index - node.commit_index + 1
            &&& forall|j: int|
                0 <= j < next.commit_index - node.commit_index ==> #[trigger] step.actions[j] == (
                ActionView::ApplyToStateMachine {
                    index: (node.commit_index + 1 + j) as u64,
                    command: next.log[node.commit_index + 1 + j - next.base].command,
                })
        }),
{
    let facing = node.facing_leader(req.term, timeout);
    let following = facing.following(req.leader_id, timeout);
    let unmoved = node.facing_leader(req.term, node.election_timeout);
    lemma_merged_ignores_clock(unmoved, following, req.prev_log_index, req.entries);
    let merged = following.merged(req.prev_log_index, req.entries);
    lemma_first_missing(following, req.prev_log_index, req.entries, 0);
    assert(following.agrees_at(req.prev_log_index, req.prev_log_term));
    assert(merged.last_index() <= u64::MAX);
}

/// What a majority holds up to an entry of the leader's own term is committed as soon as the leader
/// hears of it, and nothing more is. What is committed is applied at once, in order and with the
/// command that the log holds. An answer that reports success moves what is known of that follower,
/// and of no other.
pub proof fn law_majorities_commit(
    node: CoreView,
    resp: AppendEntriesResponseRPC,
    timeout: u64,
)
    requires
        node.wf(),
        node.can_append_entries_response(resp),
        node.state == RaftState::Leader,
        resp.term == node.current_term,
        resp.success,
    ensures
        ({
            let step = node.on_append_entries_response(resp, timeout);
            let next = step.state;
            let known = node.match_index.insert(resp.id, resp.match_index);
            let last = node.base + node.log.len() - 1;
            &&& next == (CoreView {
                match_index: known,
                next_index: node.next_index.insert(resp.id, (resp.match_index + 1) as u64),
                commit_index: next.commit_index,
                last_applied: next.commit_index,
                ..node
            })
            &&& next.commit_index >= node.commit_index
            // what has to be committed is
            &&& forall|i: u64|
                #![trigger node.log[i - node.base]]
                node.base < i <= last && node.log[i - node.base].term == node.current_term && 2 * (
                known.dom().filter(|peer: u64| known[peer] >= i).len() + 1) > known.dom().len() + 1
                    ==> i <= next.commit_index
            // and nothing else
            &&& next.commit_index > node.commit_index ==> {
                let i = next.commit_index;
                &&& i <= last
                &&& node.log[i - node.base].term == node.current_term
                &&& 2 * (known.dom().filter(|peer: u64| known[peer] >= i).len() + 1)
                    > known.dom().len() + 1
            }
            &&& step.actions.len() == next.commit_index - node.commit_index
            &&& forall|j: int|
                0 <= j < next.commit_index - node.commit_index ==> #[trigger] step.actions[j] == (
                ActionView::ApplyToStateMachine {
                    index: (node.commit_index + 1 + j) as u64,
                    command: node.log[node.commit_index + 1 + j - node.base].command,
                })
        }),
{
    let step = node.on_append_entries_response(resp, timeout);
    let next = step.state;
    let progressed = node.progressed(resp.id, resp.match_index);
    let known = progressed.match_index;
    let own = node.last_index() as u64;
    let high = progressed.replicated_index();
    lemma_majority_exists(known, own, u64::MAX);
    lemma_newest_of_term(progressed, node.commit_index, high);
    let commit = next.commit_index;
    if commit > node.commit_index {
        let few = known.dom().filter(|peer: u64| known[peer] >= high);
        let many = known.dom().filter(|peer: u64| known[peer] >= commit);
        assert(few.subset_of(many));
        vstd::set_lib::lemma_len_subset(few, many);
    }
    assert forall|i: u64|
        #![trigger node.log[i - node.base]]
        node.base < i <= own && node.log[i - node.base].term == node.current_term && 2 * (
        known.dom().filter(|peer: u64| known[peer] >= i).len() + 1) > known.dom().len()
            + 1 implies i <= commit by {
        if i > high {
            assert(2 * holders(known, own, i) <= known.dom().len() + 1);
        }
        if commit < i <= high {
            lemma_newest_is_highest(progressed, node.commit_index, high, i);
        }
    }
}

proof fn lemma_newest_is_highest(node: CoreView, low: u64, high: u64, i: u64)
    requires
        low < i <= high,
        node.term_at(i as int) == node.current_term,
    ensures
        i <= node.newest_of_term(low, high),
    decreases high,
{
    if node.term_at(high as int) != node.current_term {
        lemma_newest_is_highest(node, low, (high - 1) as u64, i);
    }
}

/// An answer that reports failure has the leader go back by one entry for that follower, and send
/// it all from there on. Nothing else changes.
pub proof fn law_failures_are_retried(
    node: CoreView,
    resp: AppendEntriesResponseRPC,
    timeout: u64,
)
    requires
        node.wf(),
        node.can_append_entries_response(resp),
        node.state == RaftState::Leader,
        resp.term == node.current_term,
        !resp.success,
    ensures
        ({
            let step = node.on_append_entries_response(resp, timeout);
            &&& step.state == if node.next_index.dom().contains(resp.id) {
                CoreView {
                    next_index: node.next_index.insert(
                        resp.id,
                        (node.next_index[resp.id] - 1) as u64,
                    ),
                    ..node
                }
            } else {
                node
            }
            &&& step.actions.len() == 1
            &&& brings_up_to_date(step.state, resp.id, step.actions[0])
        }),
{
}

/// What a leader sends reaches its end: a follower whose log has the entry before those that a
/// leader sends it ends up with all that the leader sent, and its answer has the leader know that
/// it holds the leader's whole log.
pub proof fn law_followers_catch_up(
    leader: CoreView,
    follower: CoreView,
    action: ActionView,
    timeout: u64,
)
    requires
        leader.wf(),
        follower.wf(),
        leader.base + leader.log.len() < u64::MAX,
        leader.next_index.dom().contains(follower.id),
        leader.base < leader.next_index[follower.id] <= leader.base + leader.log.len(),
        brings_up_to_date(leader, follower.id, action),
        leader.state == RaftState::Leader,
        follower.state != RaftState::Leader,
        follower.current_term <= leader.current_term,
        has_entry(
            follower,
            leader.next_index[follower.id] - 1,
            leader.log[leader.next_index[follower.id] - 1 - leader.base].term,
        ),
    ensures
        ({
            let last = leader.base + leader.log.len() - 1;
            &&& action matches ActionView::SendMessage { target, message }
            &&& target == follower.id
            &&& message matches MessageView::AppendEntries(req)
            &&& {
                let step = follower.on_append_entries(req, timeout);
                &&& step.actions.len() >= 1
                &&& step.actions[step.actions.len() - 1] matches ActionView::SendMessage {
                    target: back,
                    message: answer,
                }
                &&& back == leader.id
                &&& answer matches MessageView::AppendEntriesResponse(resp)
                &&& forall|i: int|
                    leader.next_index[follower.id] <= i <= last ==> #[trigger] has_entry(
                        step.state,
                        i,
                        leader.log[i - leader.base].term,
                    )
                &&& {
                    let after = leader.on_append_entries_response(resp, timeout).state;
                    &&& after.match_index.contains_pair(follower.id, last as u64)
                    &&& after.next_index.contains_pair(follower.id, (last + 1) as u64)
                }
            }
        }),
{
    let next = leader.next_index[follower.id] as int;
    let last = leader.base + leader.log.len() - 1;
    let req = action->SendMessage_message->AppendEntries_0;
    let step = follower.on_append_entries(req, timeout);
    law_leaders_are_answered(follower, req, timeout);
    let following = follower.facing_leader(req.term, timeout).following(req.leader_id, timeout);
    lemma_first_missing(following, req.prev_log_index, req.entries, 0);
    let k = following.first_missing(req.prev_log_index, req.entries, 0);
    assert forall|i: int| next <= i <= last implies #[trigger] has_entry(
        step.state,
        i,
        leader.log[i - leader.base].term,
    ) by {
        let j = i - next;
        assert(req.entries[j] == leader.log[next - leader.base + j]);
        if j < k {
            lemma_held_before(following, req.prev_log_index, req.entries, 0, j);
        }
    }
}

proof fn lemma_held_before(node: CoreView, prev: u64, entries: Seq<EntryView>, from: nat, i: int)
    requires
        from <= i < node.first_missing(prev, entries, from),
    ensures
        i < entries.len(),
        has_entry(node, prev + 1 + i, entries[i].term),
    decreases entries.len() - from,
{
    if from < i {
        lemma_held_before(node, prev, entries, from + 1, i);
    }
}

/// Votes reach their end as well: a node that times out gets the vote of every peer that is in no
/// later term and whose log is no more complete, and counts it beside its own. In a cluster of
/// three it leads with that.
pub proof fn law_elections_are_won(
    node: CoreView,
    voter: CoreView,
    timeout: u64,
    i: int,
)
    requires
        node.wf(),
        voter.wf(),
        node.base + node.log.len() < u64::MAX,
        node.state != RaftState::Leader,
        node.ticks < u64::MAX,
        node.ticks + 1 >= node.election_timeout,
        voter.current_term <= node.current_term < u64::MAX,
        node.timeout_start <= timeout < node.timeout_end,
        0 <= i < node.peers.len(),
        node.peers[i] == voter.id,
        voter.id != node.id,
        node.log.last().term > voter.log.last().term || (node.log.last().term
            == voter.log.last().term && node.base + node.log.len() >= voter.base
            + voter.log.len()),
    ensures
        ({
            let standing = node.on_tick(timeout);
            &&& standing.actions[i] matches ActionView::SendMessage { target, message }
            &&& target == voter.id
            &&& message matches MessageView::RequestVote(req)
            &&& {
                let answered = voter.on_request_vote(req, timeout);
                &&& answered.state.voted_for == Some(node.id)
                &&& answered.state.current_term == node.current_term + 1
                &&& answered.actions.len() == 1
                &&& answered.actions[0] matches ActionView::SendMessage {
                    target: back,
                    message: answer,
                }
                &&& back == node.id
                &&& answer matches MessageView::RequestVoteResponse(resp)
                &&& {
                    let counted = standing.state.on_request_vote_response(resp, timeout).state;
                    &&& counted.votes_received == Set::<u64>::empty().insert(node.id).insert(
                        voter.id,
                    )
                    &&& node.peers.len() <= 2 ==> counted.state == RaftState::Leader
                    &&& node.peers.len() > 2 ==> counted.state == RaftState::Candidate
                }
            }
        }),
{
    law_timeouts_start_elections(node, timeout);
    let standing = node.on_tick(timeout);
    let req = standing.actions[i]->SendMessage_message->RequestVote_0;
    law_votes_are_granted_as_asked(voter, req, timeout);
    let answered = voter.on_request_vote(req, timeout);
    let resp = answered.actions[0]->SendMessage_message->RequestVoteResponse_0;
    law_majorities_elect_leaders(standing.state, resp, timeout);
    let own = Set::<u64>::empty().insert(node.id);
    assert(own.len() == 1);
    assert(own.insert(voter.id).len() == 2);
}

/// A clock that is started over shows nothing and counts up to the timeout that it was given.
pub proof fn law_clocks_start_over(node: CoreView, timeout: u64)
    ensures
        node.clock_restarted(timeout) == (CoreView {
            ticks: 0,
            election_timeout: timeout,
            ..node
        }),
{
}

/// Answers that no leader waits for leave the node as it is.
pub proof fn law_followers_pass_answers_over(
    node: CoreView,
    resp: AppendEntriesResponseRPC,
    taken_over: InstallSnapshotResponseRPC,
    timeout: u64,
)
    requires
        node.state != RaftState::Leader,
    ensures
        resp.term <= node.current_term ==> node.on_append_entries_response(resp, timeout) == (Step {
            state: node,
            actions: Seq::<ActionView>::empty(),
        }),
        taken_over.term <= node.current_term ==> node.on_install_snapshot_response(
            taken_over,
            timeout,
        ) == node,
{
}

// ------------------------------------------------------------------------------------------ reads

/// A leader that is asked for a read appends an entry without a command in its own term, and the
/// read waits for that very entry. Nothing else changes.
pub proof fn law_reads_wait_for_an_entry_of_their_own(node: CoreView)
    requires
        node.log.len() >= 1,
        node.base + node.log.len() < u64::MAX,
    ensures
        ({
            let next = node.on_read_request();
            let index = (node.base + node.log.len()) as u64;
            &&& next.read_barriers == node.read_barriers.push(
                ReadBarrier { index, term: node.current_term },
            )
            &&& next.log == node.log.push(
                EntryView { term: node.current_term, command: Seq::<u8>::empty() },
            )
            &&& next.unsaved_from == match node.unsaved_from {
                Some(from) if from <= index => Some(from),
                _ => Some(index),
            }
            &&& next == (CoreView {
                read_barriers: next.read_barriers,
                log: next.log,
                unsaved_from: next.unsaved_from,
                ..node
            })
        }),
{
}

/// At a leader, every read of its term whose entry is committed goes ahead, in the order of the
/// requests, and every read of its term whose entry is not committed goes on to wait. No other read
/// does either. At a node that does not lead, no read goes ahead and none waits.
pub proof fn law_committed_reads_go_ahead(node: CoreView)
    ensures
        node.state == RaftState::Leader ==> {
            &&& node.read_answers() == node.read_barriers.filter(
                |read: ReadBarrier|
                    read.term == node.current_term && read.index <= node.commit_index,
            ).map_values(|read: ReadBarrier| ActionView::ReadBarrierReady { id: read.index })
            &&& forall|read: ReadBarrier| #[trigger]
                node.read_barriers.contains(read) && read.term == node.current_term ==> {
                    &&& read.index <= node.commit_index ==> node.read_answers().contains(
                        ActionView::ReadBarrierReady { id: read.index },
                    )
                    &&& read.index > node.commit_index ==> node.waiting_reads().contains(read)
                }
            &&& forall|i: int|
                0 <= i < node.read_answers().len() ==> (#[trigger] node.read_answers()[i]
                    matches ActionView::ReadBarrierReady { id } && id <= node.commit_index
                    && node.read_barriers.contains(
                    ReadBarrier { index: id, term: node.current_term },
                ))
            &&& forall|read: ReadBarrier| #[trigger]
                node.waiting_reads().contains(read) ==> {
                    &&& node.read_barriers.contains(read)
                    &&& read.term == node.current_term
                    &&& read.index > node.commit_index
                }
        },
        node.state != RaftState::Leader ==> node.read_answers() == Seq::<ActionView>::empty()
            && node.waiting_reads() == Seq::<ReadBarrier>::empty(),
{
    if node.state == RaftState::Leader {
        let all = node.read_barriers;
        let ready = all.filter(node.is_ready());
        let waiting = all.filter(node.is_waiting());
        assert(node.is_ready() =~= |read: ReadBarrier|
            read.term == node.current_term && read.index <= node.commit_index);
        assert(node.read_answers() =~= ready.map_values(
            |read: ReadBarrier| ActionView::ReadBarrierReady { id: read.index },
        ));
        assert forall|read: ReadBarrier| #[trigger]
            all.contains(read) && read.term == node.current_term implies {
            &&& read.index <= node.commit_index ==> node.read_answers().contains(
                ActionView::ReadBarrierReady { id: read.index },
            )
            &&& read.index > node.commit_index ==> node.waiting_reads().contains(read)
        } by {
            let i = choose|i: int| 0 <= i < all.len() && all[i] == read;
            if read.index <= node.commit_index {
                all.lemma_filter_contains(node.is_ready(), i);
                let j = choose|j: int| 0 <= j < ready.len() && ready[j] == read;
                assert(node.read_answers()[j] == (ActionView::ReadBarrierReady { id: read.index }));
            } else {
                all.lemma_filter_contains(node.is_waiting(), i);
            }
        }
        assert forall|i: int| 0 <= i < node.read_answers().len() implies (
        #[trigger] node.read_answers()[i] matches ActionView::ReadBarrierReady { id } && id
            <= node.commit_index && all.contains(
            ReadBarrier { index: id, term: node.current_term },
        )) by {
            assert(node.read_answers()[i] == (ActionView::ReadBarrierReady { id: ready[i].index }));
            all.lemma_filter_pred(node.is_ready(), i);
            assert(ready.contains(ready[i]));
            all.lemma_filter_contains_rev(node.is_ready(), ready[i]);
            assert(ready[i] == (ReadBarrier { index: ready[i].index, term: node.current_term }));
        }
        assert forall|read: ReadBarrier| #[trigger] node.waiting_reads().contains(read) implies {
            &&& all.contains(read)
            &&& read.term == node.current_term
            &&& read.index > node.commit_index
        } by {
            let i = choose|i: int| 0 <= i < waiting.len() && waiting[i] == read;
            all.lemma_filter_pred(node.is_waiting(), i);
            all.lemma_filter_contains_rev(node.is_waiting(), read);
        }
    }
}

/// After every event at a leader, each read of its term whose entry is committed has been told to
/// go ahead, and each other one of its term is kept.
pub proof fn law_reads_go_ahead_after_every_event(step: Step, read: ReadBarrier)
    requires
        step.state.state == RaftState::Leader,
        step.state.read_barriers.contains(read),
        read.term == step.state.current_term,
    ensures
        read.index <= step.state.commit_index ==> step.settled().actions.contains(
            ActionView::ReadBarrierReady { id: read.index },
        ),
        read.index > step.state.commit_index ==> step.settled().state.read_barriers.contains(read),
{
    let saved = CoreView { unsaved_metadata: false, unsaved_from: None, ..step.state };
    law_committed_reads_go_ahead(saved);
    law_actions_come_through(step);
    let all = step.settled().actions;
    let last = saved.read_answers();
    if read.index <= step.state.commit_index {
        let answer = ActionView::ReadBarrierReady { id: read.index };
        let i = choose|i: int| 0 <= i < last.len() && last[i] == answer;
        assert(all[all.len() - last.len() + i] == answer);
    }
}

// --------------------------------------------------------------------------------- stable storage

/// What a node hands out for stable storage is its term and vote, if they have changed, and its log
/// from the first entry on that has changed, up to its end. If nothing has changed it is nothing.
pub proof fn law_changes_are_handed_out(node: CoreView)
    requires
        node.unsaved_from matches Some(from) ==> node.base < from < node.base + node.log.len(),
    ensures
        ({
            let handed = node.persistence();
            let metadata = ActionView::PersistMetadata {
                term: node.current_term,
                voted_for: node.voted_for,
            };
            &&& handed.len() == (if node.unsaved_metadata {
                1int
            } else {
                0
            }) + (if node.unsaved_from is Some {
                1int
            } else {
                0
            })
            &&& node.unsaved_metadata ==> handed[0] == metadata
            &&& node.unsaved_from matches Some(from) ==> {
                &&& handed[handed.len() - 1] matches ActionView::PersistLogEntries {
                    start_index,
                    entries,
                }
                &&& start_index == from
                &&& entries.len() == node.base + node.log.len() - from
                &&& forall|j: int|
                    0 <= j < entries.len() ==> #[trigger] entries[j] == node.log[from - node.base
                        + j]
            }
            &&& node.saved() == (CoreView {
                unsaved_metadata: false,
                unsaved_from: None,
                ..node
            })
        }),
{
}

/// The actions of a step all come through, in their order: what is handed out for stable storage
/// comes before them, and the reads that go ahead come after them. The node is the same but for
/// what it has handed out.
pub proof fn law_actions_come_through(step: Step)
    ensures
        ({
            let handed = step.state.persistence();
            let saved = CoreView { unsaved_metadata: false, unsaved_from: None, ..step.state };
            let ready = saved.read_answers();
            &&& step.persisted().state == saved
            &&& step.persisted().actions.len() == handed.len() + step.actions.len()
            &&& step.persisted().actions.take(handed.len() as int) == handed
            &&& step.persisted().actions.skip(handed.len() as int) == step.actions
            &&& step.settled().state == (CoreView {
                read_barriers: saved.waiting_reads(),
                ..saved
            })
            &&& step.settled().actions == handed + step.actions + ready
        }),
{
    let handed = step.state.persistence();
    let all = step.persisted().actions;
    assert(all.take(handed.len() as int) =~= handed);
    assert(all.skip(handed.len() as int) =~= step.actions);
}

/// A new node follows nobody, in a term before all others, with no vote and an empty log. Its peers
/// are all other nodes of the cluster, in the given order. A heartbeat interval that was not given
/// is five ticks.
pub proof fn law_nodes_start_with_nothing(
    id: u64,
    nodes: Seq<u64>,
    interval: u64,
    start: u64,
    end: u64,
    timeout: u64,
)
    ensures
        ({
            let node = CoreView::fresh(id, nodes, interval, start, end, timeout);
            &&& node.id == id
            &&& node.peers == nodes.filter(|other: u64| other != id)
            &&& forall|other: u64| #[trigger]
                node.peers.contains(other) <==> nodes.contains(other) && other != id
            &&& node.state == RaftState::Follower
            &&& node.current_term == 0 && node.voted_for is None && node.leader_id is None
            &&& node.base == 0 && node.log == seq![
                EntryView { term: 0, command: Seq::<u8>::empty() },
            ]
            &&& node.commit_index == 0 && node.last_applied == 0
            &&& node.next_index == Map::<u64, u64>::empty()
            &&& node.match_index == Map::<u64, u64>::empty()
            &&& node.votes_received == Set::<u64>::empty()
            &&& node.read_barriers == Seq::<ReadBarrier>::empty()
            &&& node.ticks == 0 && node.election_timeout == timeout
            &&& node.timeout_start == start && node.timeout_end == end
            &&& node.heartbeat_interval == interval
            &&& !node.unsaved_metadata && node.unsaved_from is None
        }),
        heartbeat_or_default(Some(interval)) == interval,
        heartbeat_or_default(None) == 5,
{
    let node = CoreView::fresh(id, nodes, interval, start, end, timeout);
    let others = |other: u64| other != id;
    assert(is_other(id) =~= others);
    assert forall|other: u64| #[trigger]
        node.peers.contains(other) <==> nodes.contains(other) && other != id by {
        if node.peers.contains(other) {
            nodes.lemma_filter_contains_rev(others, other);
            let i = choose|i: int| 0 <= i < node.peers.len() && node.peers[i] == other;
            nodes.lemma_filter_pred(others, i);
        }
        if nodes.contains(other) && other != id {
            let i = choose|i: int| 0 <= i < nodes.len() && nodes[i] == other;
            nodes.lemma_filter_contains(others, i);
        }
    }
}

/// A node that starts again has its term, its vote, and its log where the snapshot ends, and stands
/// where the snapshot does. All else is as on its first start.
pub proof fn law_nodes_start_again_from_what_is_stored(
    fresh: CoreView,
    term: u64,
    voted_for: Option<u64>,
    entries: Seq<EntryView>,
    index: u64,
    index_term: u64,
)
    ensures
        ({
            let node = fresh.restored(term, voted_for, entries, index, index_term);
            &&& node == (CoreView {
                current_term: term,
                voted_for,
                base: index,
                commit_index: index,
                last_applied: index,
                log: node.log,
                ..fresh
            })
            &&& node.log.len() == entries.len() + 1
            &&& node.log[0] == (EntryView { term: index_term, command: Seq::<u8>::empty() })
            &&& forall|i: int|
                0 <= i < entries.len() ==> #[trigger] node.log[i + 1] == entries[i]
            &&& node.last_index() == index + entries.len()
            &&& forall|i: int|
                index < i <= index + entries.len() ==> #[trigger] node.term_at(i) == entries[i
                    - index - 1].term
        }),
{
}

/// A start without a term on stable storage is a first start. One with a term and no snapshot goes
/// on from the start of the log that is stored, if there is one, and one with a snapshot goes on
/// from where the snapshot ends.
pub proof fn law_starts_follow_what_is_stored(
    fresh: CoreView,
    snapshot: SnapshotView,
    metadata: PersistedMetadata,
    entries: Seq<EntryView>,
    left: Option<Seq<EntryView>>,
)
    ensures
        started(fresh, None, None, left) == fresh,
        ({
            let node = started(fresh, None, Some(metadata), None);
            &&& node.current_term == metadata.term && node.voted_for == metadata.voted_for
            &&& node.base == 0 && node.commit_index == 0 && node.log.len() == 1
        }),
        ({
            let node = started(fresh, None, Some(metadata), Some(entries));
            &&& node.current_term == metadata.term && node.voted_for == metadata.voted_for
            &&& node.base == 0 && node.commit_index == 0
            &&& node.log.len() == entries.len() + 1 && node.log[0].term == 0
            &&& node.log.skip(1) == entries
        }),
        ({
            let node = started(fresh, Some(snapshot), Some(metadata), Some(entries));
            &&& node.current_term == metadata.term && node.voted_for == metadata.voted_for
            &&& node.base == snapshot.last_included_index
            &&& node.commit_index == node.base && node.last_applied == node.base
            &&& node.log.len() == entries.len() + 1
            &&& node.log[0].term == snapshot.last_included_term
            &&& node.log.skip(1) == entries
        }),
{
    let first = started(fresh, None, Some(metadata), Some(entries));
    let second = started(fresh, Some(snapshot), Some(metadata), Some(entries));
    assert(first.log.skip(1) =~= entries);
    assert(second.log.skip(1) =~= entries);
}

// -------------------------------------------------------------------------------------- snapshots

/// A snapshot that a node has taken stands in for the entries up to its index. Those after it stay,
/// at their indexes, and are written to stable storage again. Nothing else changes.
pub proof fn law_snapshots_stand_in_for_entries(node: CoreView, snapshot: SnapshotMetadata)
    requires
        node.log.len() >= 1,
        node.base <= snapshot.last_applied < node.base + node.log.len(),
        node.base + node.log.len() <= u64::MAX,
    ensures
        ({
            let next = node.compacted(snapshot);
            let index = snapshot.last_applied;
            let end = node.base + node.log.len();
            &&& next.base == index
            &&& next.base + next.log.len() == end
            &&& next.log[0] == (EntryView {
                term: snapshot.last_applied_term,
                command: Seq::<u8>::empty(),
            })
            &&& forall|i: int|
                index < i < end ==> next.log[i - index] == #[trigger] node.log[i - node.base]
            &&& next.unsaved_from == if index + 1 < end {
                Some((index + 1) as u64)
            } else {
                None
            }
            &&& next == (CoreView {
                base: index,
                log: next.log,
                unsaved_from: next.unsaved_from,
                ..node
            })
        }),
{
}

/// A snapshot from a leader is installed if and only if it goes beyond what the node has committed.
/// The node then stands where the snapshot ends, and keeps the entries after that if its log has
/// the snapshot's last entry and no others if it has not. The application gets the state, and what is
/// kept is stored again. In any case the leader that is no earlier than the node's term is followed
/// and gets an answer that it can go on from the snapshot's index.
pub proof fn law_snapshots_are_installed_where_they_help(
    node: CoreView,
    req: InstallSnapshotView,
    timeout: u64,
)
    requires
        node.wf(),
        req.last_included_index < u64::MAX,
        req.term > node.current_term || (req.term == node.current_term && node.state
            != RaftState::Leader),
    ensures
        ({
            let step = node.on_install_snapshot(req, timeout);
            let next = step.state;
            let index = req.last_included_index;
            let end = node.base + node.log.len();
            let agrees = index < end && node.log[index - node.base].term
                == req.last_included_term;
            &&& next.state == RaftState::Follower
            &&& next.leader_id == Some(req.leader_id)
            &&& next.ticks == 0
            &&& next.election_timeout == timeout
            &&& step.actions.len() >= 1
            &&& step.actions[step.actions.len() - 1] == (ActionView::SendMessage {
                target: req.leader_id,
                message: MessageView::InstallSnapshotResponse(
                    InstallSnapshotResponseRPC {
                        id: node.id,
                        term: req.term,
                        last_included_index: index,
                    },
                ),
            })
            &&& index <= node.commit_index ==> {
                &&& step.actions.len() == 1
                &&& next.base == node.base && next.log == node.log
                &&& next.commit_index == node.commit_index
                &&& next.last_applied == node.last_applied
                &&& next.unsaved_from == node.unsaved_from
            }
            &&& index > node.commit_index ==> {
                &&& next.base == index
                &&& next.commit_index == index && next.last_applied == index
                &&& next.unsaved_from is None
                &&& next.log[0] == (EntryView {
                    term: req.last_included_term,
                    command: Seq::<u8>::empty(),
                })
                &&& next.base + next.log.len() == if agrees {
                    end
                } else {
                    index + 1
                }
                &&& forall|i: int|
                    agrees && index < i < end ==> next.log[i - index] == #[trigger] node.log[i
                        - node.base]
                &&& step.actions[0] == (ActionView::InstallSnapshot {
                    last_included_index: index,
                    last_included_term: req.last_included_term,
                    data: req.data,
                })
                &&& step.actions.len() == if next.log.len() > 1 {
                    3int
                } else {
                    2
                }
                &&& next.log.len() > 1 ==> (step.actions[1]
                    matches ActionView::PersistLogEntries { start_index, entries } && start_index
                    == index + 1 && entries.len() == next.log.len() - 1 && forall|j: int|
                    0 <= j < entries.len() ==> #[trigger] entries[j] == next.log[j + 1])
            }
            &&& next.voted_for == if req.term == node.current_term && node.state
                == RaftState::Follower {
                node.voted_for
            } else {
                None
            }
            &&& next.unsaved_metadata == (node.unsaved_metadata || req.term > node.current_term
                || node.state == RaftState::Candidate)
            &&& next == (CoreView {
                current_term: req.term,
                state: RaftState::Follower,
                voted_for: next.voted_for,
                leader_id: Some(req.leader_id),
                ticks: 0,
                election_timeout: timeout,
                base: next.base,
                log: next.log,
                commit_index: next.commit_index,
                last_applied: next.last_applied,
                unsaved_metadata: next.unsaved_metadata,
                unsaved_from: next.unsaved_from,
                ..node
            })
        }),
{
}

/// A node that leads takes no snapshot from another in its own term, and says where its own ends.
pub proof fn law_leaders_take_no_snapshots(node: CoreView, req: InstallSnapshotView, timeout: u64)
    requires
        node.state == RaftState::Leader,
        req.term == node.current_term,
    ensures
        node.on_install_snapshot(req, timeout) == (Step {
            state: node,
            actions: seq![
                ActionView::SendMessage {
                    target: req.leader_id,
                    message: MessageView::InstallSnapshotResponse(
                        InstallSnapshotResponseRPC {
                            id: node.id,
                            term: node.current_term,
                            last_included_index: node.base,
                        },
                    ),
                },
            ],
        }),
{
}

/// A leader whose follower has taken over a snapshot goes on from the entry after it, for that
/// follower and no other.
pub proof fn law_followers_go_on_from_their_snapshot(
    node: CoreView,
    resp: InstallSnapshotResponseRPC,
    timeout: u64,
)
    requires
        node.state == RaftState::Leader,
        resp.term == node.current_term,
        resp.last_included_index < u64::MAX,
    ensures
        node.on_install_snapshot_response(resp, timeout) == (CoreView {
            match_index: node.match_index.insert(resp.id, resp.last_included_index),
            next_index: node.next_index.insert(resp.id, (resp.last_included_index + 1) as u64),
            ..node
        }),
{
}

// ----------------------------------------------------------------------------- what can be handled

/// A node takes every vote request, and every other message as long as the numbers in it leave room
/// for one more and an answer does not speak of entries beyond the leader's log.
pub proof fn law_inputs_are_taken(node: CoreView, message: MessageView)
    requires
        node.wf(),
    ensures
        match message {
            MessageView::RequestVote(_) => node.can_take(message),
            MessageView::RequestVoteResponse(_) => node.can_take(message) <==> node.base
                + node.log.len() < u64::MAX,
            MessageView::AppendEntries(req) => {
                // nothing that is committed is beyond what the leader sends
                req.prev_log_index + 1 + req.entries.len() <= u64::MAX && (req.leader_commit
                    <= node.commit_index || node.commit_index <= req.prev_log_index
                    + req.entries.len()) ==> node.can_take(message)
            },
            MessageView::AppendEntriesResponse(resp) => {
                let last = node.base + node.log.len() - 1;
                &&& node.state != RaftState::Leader || resp.term != node.current_term
                    ==> node.can_take(message)
                &&& resp.success && resp.match_index <= last && resp.match_index < u64::MAX && (
                forall|peer: u64| #[trigger]
                    node.match_index.dom().contains(peer) ==> node.match_index[peer] <= last)
                    ==> node.can_take(message)
                &&& !resp.success && node.next_index.dom().contains(resp.id) && 2
                    <= node.next_index[resp.id] <= last + 1 ==> node.can_take(message)
            },
            MessageView::InstallSnapshot(req) => node.can_take(message) <==> req.last_included_index
                < u64::MAX,
            MessageView::InstallSnapshotResponse(resp) => node.can_take(message)
                <==> resp.last_included_index < u64::MAX,
        },
        // the clock moves as long as it can be counted
        node.state != RaftState::Leader && node.ticks < u64::MAX && node.current_term < u64::MAX
            ==> node.can_tick(),
        node.ticks < u64::MAX && knows_its_peers(node) ==> node.can_tick(),
        // and a leader takes proposals as long as its log has room
        knows_its_peers(node) && node.base + node.log.len() < u64::MAX ==> node.can_propose(),
        node.state != RaftState::Leader ==> node.can_propose(),
        // what is applied can be covered by a snapshot
        forall|index: u64|
            node.base <= index <= node.last_applied && index < node.base + node.log.len()
                ==> #[trigger] node.can_compact(index),
{
    match message {
        MessageView::AppendEntries(req) => {
            let facing = node.facing_leader(req.term, node.election_timeout);
            if req.prev_log_index + 1 + req.entries.len() <= u64::MAX && facing.agrees_at(
                req.prev_log_index,
                req.prev_log_term,
            ) {
                lemma_first_missing(facing, req.prev_log_index, req.entries, 0);
            }
        },
        MessageView::AppendEntriesResponse(resp) => {
            let known = node.match_index.insert(resp.id, resp.match_index);
            let own = node.last_index() as u64;
            lemma_majority_exists(known, own, u64::MAX);
            let high = majority_index(known, own);
            let holding = known.dom().filter(|peer: u64| known[peer] >= high);
            if high > own && holding.len() > 0 {
                let peer = holding.choose();
                assert(holding.contains(peer));
                assert(known.dom().contains(peer));
            }
        },
        _ => {},
    }
}

/// Whether a leader knows of each peer what it needs next, within its log.
pub open spec fn knows_its_peers(leader: CoreView) -> bool {
    leader.state == RaftState::Leader && forall|i: int|
        0 <= i < leader.peers.len() ==> leader.next_index.dom().contains(
            #[trigger] leader.peers[i],
        ) && 1 <= leader.next_index[leader.peers[i]] <= leader.base + leader.log.len()
}

// --------------------------------------------------------------------------------- the event loop

/// An entry that is applied is answered for, delivered and counted: the client that waits under its
/// index hears of success, no other client hears anything, the application gets the command unless
/// it is empty, and is asked for a snapshot when it has got as many as the threshold says. This is
/// the order in which they come. The client waits no more, and all others go on to wait.
pub proof fn law_applied_entries_are_delivered(driver: DriverView, index: u64, command: Seq<u8>)
    requires
        driver.num_entries < usize::MAX,
    ensures
        ({
            let (next, effects) = driver.on_action(
                ActionView::ApplyToStateMachine { index, command },
            );
            let waits = driver.proposals.dom().contains(index);
            let full = command.len() > 0 && driver.num_entries + 1 >= driver.snapshot_threshold;
            let at = if waits {
                1int
            } else {
                0
            };
            &&& effects.len() == at + (if command.len() > 0 {
                1int
            } else {
                0
            }) + (if full {
                1int
            } else {
                0
            })
            &&& waits ==> effects[0] == (EffectView::Reply {
                ticket: driver.proposals[index],
                result: Ok(()),
            })
            &&& command.len() > 0 ==> effects[at] == EffectView::DeliverCommand(command)
            &&& full ==> effects[at + 1] == (EffectView::RequestSnapshot { index })
            &&& next == (DriverView {
                proposals: driver.proposals.remove(index),
                num_entries: if command.len() > 0 {
                    (driver.num_entries + 1) as usize
                } else {
                    driver.num_entries
                },
                ..driver
            })
        }),
{
}

/// A read that may go ahead is answered, once, and all other clients go on to wait.
pub proof fn law_ready_reads_are_answered(driver: DriverView, id: u64)
    ensures
        ({
            let (next, effects) = driver.on_action(ActionView::ReadBarrierReady { id });
            &&& driver.reads.dom().contains(id) ==> effects == seq![
                EffectView::Reply { ticket: driver.reads[id], result: Ok(()) },
            ]
            &&& !driver.reads.dom().contains(id) ==> effects == Seq::<EffectView>::empty()
            &&& next == (DriverView { reads: driver.reads.remove(id), ..driver })
        }),
{
}

/// What goes to a peer, to stable storage or to the application is what the node has asked for, to
/// the letter. A snapshot from a leader is stored before the application gets it, and the log is
/// cleared last. None of this concerns a client.
pub proof fn law_actions_are_carried_out_to_the_letter(driver: DriverView, action: ActionView)
    ensures
        match action {
            ActionView::SendMessage { target, message } => driver.on_action(action) == (
                driver,
                seq![EffectView::Send { target, message }],
            ),
            ActionView::SendInstallSnapshot {
                target,
                term,
                last_included_index,
                last_included_term,
            } => driver.on_action(action) == (
                driver,
                seq![
                    EffectView::SendSnapshot {
                        target,
                        term,
                        leader_id: driver.core.id,
                        last_included_index,
                        last_included_term,
                    },
                ],
            ),
            ActionView::PersistMetadata { term, voted_for } => driver.on_action(action) == (
                driver,
                seq![EffectView::StoreMetadata(PersistedMetadata { term, voted_for })],
            ),
            ActionView::PersistLogEntries { start_index, entries } => driver.on_action(action) == (
                driver,
                seq![EffectView::StoreLogEntries(AddendumView { start_index, entries })],
            ),
            ActionView::InstallSnapshot { last_included_index, last_included_term, data } => {
                driver.on_action(action) == (
                    driver,
                    seq![
                        EffectView::StoreSnapshot(
                            SnapshotView { last_included_index, last_included_term, data },
                        ),
                        EffectView::DeliverSnapshot(data),
                        EffectView::TruncateLog,
                    ],
                )
            },
            _ => true,
        },
{
}

/// A client that a leader takes on waits under the index of the entry that is appended for it, and
/// nobody waits less or more on its account.
pub proof fn law_clients_wait_under_their_entry(
    driver: DriverView,
    command: Seq<u8>,
    ticket: u64,
)
    requires
        driver.core.log.len() >= 1,
        driver.core.base + driver.core.log.len() < u64::MAX,
    ensures
        ({
            let index = (driver.core.base + driver.core.log.len()) as u64;
            let (next, actions) = driver.on_propose(command, ticket);
            let step = driver.core.on_propose(command).settled();
            &&& next == (DriverView {
                core: step.state,
                proposals: driver.proposals.insert(index, ticket),
                ..driver
            })
            &&& actions == step.actions
            &&& next.core.log[index - next.core.base].command == command
        }),
        ({
            let index = (driver.core.base + driver.core.log.len()) as u64;
            let (next, actions) = driver.on_read_request(ticket);
            let step = (Step {
                state: driver.core.on_read_request(),
                actions: Seq::<ActionView>::empty(),
            }).settled();
            &&& next == (DriverView {
                core: step.state,
                reads: driver.reads.insert(index, ticket),
                ..driver
            })
            &&& actions == step.actions
        }),
{
}

/// Clients wait on through ticks and messages as long as the node does not lose its leadership, and
/// no client waits once it has. The node does what it does without the loop.
pub proof fn law_clients_wait_on(driver: DriverView, message: MessageView, timeout: u64)
    ensures
        ({
            let (next, actions) = driver.on_tick(timeout);
            let step = driver.core.on_tick(timeout).settled();
            &&& next == (DriverView { core: step.state, ..driver })
            &&& actions == step.actions
        }),
        ({
            let (next, actions) = driver.on_message(message, timeout);
            let step = driver.core.on_message(message, timeout).settled();
            let lost = driver.core.state == RaftState::Leader && step.state.state
                != RaftState::Leader;
            &&& actions == step.actions
            &&& !lost ==> next == (DriverView { core: step.state, ..driver })
            &&& lost ==> next == (DriverView {
                core: step.state,
                proposals: Map::<u64, u64>::empty(),
                reads: Map::<u64, u64>::empty(),
                ..driver
            })
        }),
{
}

/// Whoever waits at a node that loses its leadership is told so, each client once, and nothing else
/// is said.
pub proof fn law_refusals_reach_everybody(driver: DriverView, effects: Seq<EffectView>)
    requires
        driver.proposals.dom().finite(),
        driver.reads.dom().finite(),
        driver.refuses_waiting(effects),
    ensures
        effects.len() == driver.proposals.dom().len() + driver.reads.dom().len(),
        forall|index: u64| #[trigger]
            driver.proposals.dom().contains(index) ==> effects.contains(
                EffectView::Reply {
                    ticket: driver.proposals[index],
                    result: Err(ProposalError::LostLeadership),
                },
            ),
        forall|index: u64| #[trigger]
            driver.reads.dom().contains(index) ==> effects.contains(
                EffectView::Reply {
                    ticket: driver.reads[index],
                    result: Err(ProposalError::LostLeadership),
                },
            ),
        forall|i: int|
            0 <= i < effects.len() ==> (#[trigger] effects[i] matches EffectView::Reply {
                ticket,
                result,
            } && result == Err::<(), ProposalError>(ProposalError::LostLeadership) && (
            driver.proposals.contains_value(ticket) || driver.reads.contains_value(ticket))),
{
    let (first, second) = choose|first: Seq<EffectView>, second: Seq<EffectView>|
        effects == first + second && #[trigger] refuses_all(driver.proposals, first)
            && #[trigger] refuses_all(driver.reads, second);
    lemma_refused(driver.proposals, first);
    lemma_refused(driver.reads, second);
    assert forall|index: u64| #[trigger]
        driver.proposals.dom().contains(index) implies effects.contains(
        EffectView::Reply {
            ticket: driver.proposals[index],
            result: Err(ProposalError::LostLeadership),
        },
    ) by {
        let reply = EffectView::Reply {
            ticket: driver.proposals[index],
            result: Err(ProposalError::LostLeadership),
        };
        let i = choose|i: int| 0 <= i < first.len() && first[i] == reply;
        assert(effects[i] == reply);
    }
    assert forall|index: u64| #[trigger]
        driver.reads.dom().contains(index) implies effects.contains(
        EffectView::Reply {
            ticket: driver.reads[index],
            result: Err(ProposalError::LostLeadership),
        },
    ) by {
        let reply = EffectView::Reply {
            ticket: driver.reads[index],
            result: Err(ProposalError::LostLeadership),
        };
        let i = choose|i: int| 0 <= i < second.len() && second[i] == reply;
        assert(effects[first.len() + i] == reply);
    }
    assert forall|i: int| 0 <= i < effects.len() implies (#[trigger] effects[i]
        matches EffectView::Reply { ticket, result } && result == Err::<(), ProposalError>(
        ProposalError::LostLeadership,
    ) && (driver.proposals.contains_value(ticket) || driver.reads.contains_value(ticket))) by {
        if i < first.len() {
            assert(effects[i] == first[i]);
        } else {
            assert(effects[i] == second[i - first.len()]);
        }
    }
}

proof fn lemma_refused(pending: Map<u64, u64>, effects: Seq<EffectView>)
    requires
        pending.dom().finite(),
        refuses_all(pending, effects),
    ensures
        effects.len() == pending.dom().len(),
        forall|index: u64| #[trigger]
            pending.dom().contains(index) ==> effects.contains(
                EffectView::Reply {
                    ticket: pending[index],
                    result: Err(ProposalError::LostLeadership),
                },
            ),
        forall|i: int|
            0 <= i < effects.len() ==> (#[trigger] effects[i] matches EffectView::Reply {
                ticket,
                result,
            } && result == Err::<(), ProposalError>(ProposalError::LostLeadership)
                && pending.contains_value(ticket)),
{
    let keys = choose|keys: Seq<u64>|
        keys.no_duplicates() && #[trigger] keys.to_set() == pending.dom() && effects
            == keys.map_values(|key: u64| refusal(pending[key]));
    keys.unique_seq_to_set();
    assert forall|index: u64| #[trigger] pending.dom().contains(index) implies effects.contains(
        EffectView::Reply {
            ticket: pending[index],
            result: Err(ProposalError::LostLeadership),
        },
    ) by {
        assert(keys.to_set().contains(index));
        let i = choose|i: int| 0 <= i < keys.len() && keys[i] == index;
        assert(effects[i] == refusal(pending[index]));
    }
    assert forall|i: int| 0 <= i < effects.len() implies (#[trigger] effects[i]
        matches EffectView::Reply { ticket, result } && result == Err::<(), ProposalError>(
        ProposalError::LostLeadership,
    ) && pending.contains_value(ticket)) by {
        assert(keys.to_set().contains(keys[i]));
        assert(effects[i] == refusal(pending[keys[i]]));
    }
}

/// The state that an application hands over is stored as a snapshot of the entry that it was asked
/// for, then the log is cleared, and then the entries after that one are stored again. The count of
/// commands starts over, and the clients go on to wait.
pub proof fn law_handed_over_states_are_stored(driver: DriverView, index: u64, data: Seq<u8>)
    requires
        driver.core.wf(),
        driver.core.is_saved(),
        driver.core.base <= index < driver.core.base + driver.core.log.len(),
    ensures
        ({
            let (next, effects) = driver.on_snapshot(index, data);
            let term = driver.core.log[index - driver.core.base].term;
            let end = driver.core.base + driver.core.log.len();
            &&& effects[0] == EffectView::StoreSnapshot(
                SnapshotView { last_included_index: index, last_included_term: term, data },
            )
            &&& effects[1] == EffectView::TruncateLog
            &&& effects.len() == if index + 1 < end {
                3int
            } else {
                2
            }
            &&& index + 1 < end ==> (effects[2] matches EffectView::StoreLogEntries(addendum)
                && addendum.start_index == index + 1 && addendum.entries.len() == end - index - 1
                && forall|j: int|
                0 <= j < addendum.entries.len() ==> #[trigger] addendum.entries[j]
                    == driver.core.log[index + 1 + j - driver.core.base])
            &&& next.core == (CoreView {
                base: index,
                log: next.core.log,
                ..driver.core
            })
            &&& next.core.log.len() == end - index
            &&& next.core.log[0].term == term
            &&& next.num_entries == 0
            &&& next == (DriverView { core: next.core, num_entries: 0, ..driver })
        }),
{
    law_snapshots_stand_in_for_entries(
        driver.core,
        SnapshotMetadata {
            last_applied: index,
            last_applied_term: driver.core.log[index - driver.core.base].term,
        },
    );
}

} // verus!
