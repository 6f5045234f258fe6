//! Elections: no term has two leaders.
//!
//! The proof follows the votes. A node votes for at most one other candidate in a term, and one
//! that comes to lead does not vote for another in that term at all, so two leaders of a term would
//! need a voter in common that has voted for both.

use crate::cluster::{
    after, applies, carries, enabled, is_fresh, is_run, outcome, reached, sends,
    Application, Cluster, Envelope, Event, Leadership,
};
use crate::model::{CoreView, Step};
use crate::types::{ActionView, MessageView, RaftState, RequestVoteRPC};
use vstd::prelude::*;

verus! {

/// A node in one of its terms.
pub struct Turn {
    pub node: u64,
    pub term: u64,
}

/// The votes of all terms so far.
#[verifier::ext_equal]
pub struct Votes {
    /// Who led in a term.
    pub leader: Map<u64, u64>,
    /// Who had voted for the leader of a term when it won.
    pub voters: Map<u64, Set<u64>>,
    /// For whom a node has voted in a term, its vote for itself left out.
    pub choice: Map<Turn, u64>,
    /// Who has stood for election in a term.
    pub stood: Set<Turn>,
}

impl Votes {
    pub open spec fn none() -> Votes {
        Votes {
            leader: Map::<u64, u64>::empty(),
            voters: Map::<u64, Set<u64>>::empty(),
            choice: Map::<Turn, u64>::empty(),
            stood: Set::<Turn>::empty(),
        }
    }

    /// Whether the term has had a leader.
    pub open spec fn has_led(self, term: u64) -> bool {
        self.leader.dom().contains(term)
    }

    /// Whether `node` has voted for `candidate`, which may be the node itself.
    pub open spec fn voted(self, node: u64, term: u64, candidate: u64) -> bool {
        ||| node == candidate
        ||| {
            &&& self.choice.dom().contains(Turn { node, term })
            &&& self.choice[Turn { node, term }] == candidate
        }
    }

    /// The votes after an event that takes a node from `before` to `next`.
    pub open spec fn extended(self, event: Event, before: CoreView, next: CoreView) -> Votes {
        let turn = Turn { node: before.id, term: next.current_term };
        Votes {
            leader: if wins(before, next) {
                self.leader.insert(next.current_term, before.id)
            } else {
                self.leader
            },
            voters: if wins(before, next) {
                self.voters.insert(next.current_term, next.votes_received)
            } else {
                self.voters
            },
            choice: match granted_request(event, before) {
                Some(req) => self.choice.insert(turn, req.candidate_id),
                None => self.choice,
            },
            stood: if stands(before, next) {
                self.stood.insert(turn)
            } else {
                self.stood
            },
        }
    }
}

/// Whether a node has become the leader.
pub open spec fn wins(before: CoreView, next: CoreView) -> bool {
    before.state != RaftState::Leader && next.state == RaftState::Leader
}

/// Whether a node has stood for election.
pub open spec fn stands(before: CoreView, next: CoreView) -> bool {
    next.state == RaftState::Candidate && before.current_term < next.current_term
}

/// The vote request that the node grants, if the event is one.
pub open spec fn granted_request(event: Event, node: CoreView) -> Option<RequestVoteRPC> {
    match event {
        Event::Deliver { envelope, timeout } => match envelope.message {
            MessageView::RequestVote(req) => if node.joined_term(req.term, timeout).grants(req) {
                Some(req)
            } else {
                None
            },
            _ => None,
        },
        _ => None,
    }
}

/// More than half of the nodes.
pub open spec fn quorum(some: Set<u64>, ids: Set<u64>) -> bool {
    some.subset_of(ids) && 2 * some.len() > ids.len()
}

/// What holds of the votes in a term that has had a leader.
pub open spec fn votes_term_ok(votes: Votes, term: u64, ids: Set<u64>) -> bool {
    &&& ids.contains(votes.leader[term])
    &&& votes.stood.contains(Turn { node: votes.leader[term], term })
    &&& quorum(votes.voters[term], ids)
    &&& !votes.choice.dom().contains(Turn { node: votes.leader[term], term })
    &&& forall|voter: u64| #[trigger]
        votes.voters[term].contains(voter) ==> votes.voted(voter, term, votes.leader[term])
}

/// What holds of the votes.
pub open spec fn votes_ok(votes: Votes, ids: Set<u64>) -> bool {
    &&& ids.finite()
    &&& votes.voters.dom() == votes.leader.dom()
    &&& forall|term: u64| #[trigger] votes.has_led(term) ==> votes_term_ok(votes, term, ids)
    &&& forall|turn: Turn| #[trigger]
        votes.choice.dom().contains(turn) ==> ids.contains(turn.node) && votes.choice[turn]
            != turn.node && votes.stood.contains(
            Turn { node: votes.choice[turn], term: turn.term },
        )
}

/// What holds of a node and its votes.
pub open spec fn voter_ok(node: CoreView, id: u64, votes: Votes, ids: Set<u64>) -> bool {
    &&& node.id == id
    &&& ids.contains(id)
    &&& node.peers.no_duplicates()
    &&& node.peers.to_set() == ids.remove(id)
    &&& node.state == RaftState::Candidate ==> {
        &&& node.voted_for == Some(id)
        &&& votes.stood.contains(Turn { node: id, term: node.current_term })
        &&& !(votes.has_led(node.current_term) && votes.leader[node.current_term] == id)
        &&& node.votes_received.subset_of(ids)
        &&& forall|voter: u64| #[trigger]
            node.votes_received.contains(voter) ==> votes.voted(voter, node.current_term, id)
    }
    &&& node.state == RaftState::Leader ==> votes.has_led(node.current_term)
        && votes.leader[node.current_term] == id
    &&& forall|term: u64| #[trigger]
        votes.has_led(term) && votes.leader[term] == id ==> {
            &&& term <= node.current_term
            &&& term == node.current_term ==> node.voted_for == Some(id) && node.state
                != RaftState::Candidate
        }
    &&& forall|term: u64| #[trigger]
        votes.choice.dom().contains(Turn { node: id, term }) ==> {
            &&& term <= node.current_term
            &&& term == node.current_term ==> node.state == RaftState::Follower && node.voted_for
                == Some(votes.choice[Turn { node: id, term }])
        }
    &&& forall|term: u64| #[trigger]
        votes.stood.contains(Turn { node: id, term }) ==> term <= node.current_term
}

/// What holds of a message about votes.
pub open spec fn vote_message_ok(envelope: Envelope, votes: Votes, ids: Set<u64>) -> bool {
    match envelope.message {
        MessageView::RequestVote(req) => {
            &&& votes.stood.contains(Turn { node: req.candidate_id, term: req.term })
            &&& req.candidate_id != envelope.to
        },
        MessageView::RequestVoteResponse(resp) => {
            &&& ids.contains(resp.id)
            &&& resp.vote_granted ==> {
                let turn = Turn { node: resp.id, term: resp.term };
                votes.choice.dom().contains(turn) && votes.choice[turn] == envelope.to
            }
        },
        _ => true,
    }
}

/// What holds of the votes in a cluster.
pub open spec fn elections_ok(cluster: Cluster, votes: Votes) -> bool {
    let ids = cluster.nodes.dom();
    &&& votes_ok(votes, ids)
    &&& forall|id: u64| #[trigger]
        ids.contains(id) ==> voter_ok(cluster.nodes[id], id, votes, ids)
    &&& forall|envelope: Envelope| #[trigger]
        cluster.sent.contains(envelope) ==> vote_message_ok(envelope, votes, ids)
    &&& forall|lead: Leadership| #[trigger]
        cluster.led.contains(lead) ==> votes.has_led(lead.term) && votes.leader[lead.term]
            == lead.node
}

/// Whether votes only grow.
pub open spec fn votes_grow(before: Votes, next: Votes) -> bool {
    &&& before.leader.submap_of(next.leader)
    &&& before.voters.submap_of(next.voters)
    &&& before.choice.submap_of(next.choice)
    &&& before.stood.subset_of(next.stood)
}

/// Two sets of more than half of the nodes have a node in common.
pub proof fn lemma_quorums_meet(a: Set<u64>, b: Set<u64>, ids: Set<u64>) -> (both: u64)
    requires
        ids.finite(),
        quorum(a, ids),
        quorum(b, ids),
    ensures
        a.contains(both),
        b.contains(both),
{
    vstd::set_lib::lemma_len_subset(a, ids);
    vstd::set_lib::lemma_len_subset(b, ids);
    if a.disjoint(b) {
        vstd::set_lib::lemma_set_disjoint_lens(a, b);
        vstd::set_lib::lemma_len_subset(a.union(b), ids);
    }
    choose|both: u64| a.contains(both) && b.contains(both)
}

proof fn lemma_peers(node: CoreView, ids: Set<u64>)
    requires
        ids.finite(),
        ids.contains(node.id),
        node.peers.no_duplicates(),
        node.peers.to_set() == ids.remove(node.id),
    ensures
        node.peers.len() + 1 == ids.len(),
        forall|i: int|
            0 <= i < node.peers.len() ==> ids.contains(#[trigger] node.peers[i]) && node.peers[i]
                != node.id,
{
    node.peers.unique_seq_to_set();
    assert forall|i: int| 0 <= i < node.peers.len() implies ids.contains(#[trigger] node.peers[i])
        && node.peers[i] != node.id by {
        assert(node.peers.to_set().contains(node.peers[i]));
    }
}

/// A node that has won an election has the votes of more than half of the nodes.
pub proof fn lemma_winner_has_quorum(node: CoreView, ids: Set<u64>)
    requires
        ids.finite(),
        ids.contains(node.id),
        node.peers.no_duplicates(),
        node.peers.to_set() == ids.remove(node.id),
        node.votes_received.subset_of(ids),
        node.has_won(),
    ensures
        quorum(node.votes_received, ids),
{
    lemma_peers(node, ids);
}

/// A candidate that wins finds a term without a leader.
proof fn lemma_no_leader_yet(
    cluster: Cluster,
    votes: Votes,
    node: CoreView,
    counted: Set<u64>,
)
    requires
        elections_ok(cluster, votes),
        cluster.nodes.dom().contains(node.id),
        cluster.nodes[node.id] == node,
        node.state == RaftState::Candidate,
        quorum(counted, cluster.nodes.dom()),
        forall|voter: u64| #[trigger]
            counted.contains(voter) ==> votes.voted(voter, node.current_term, node.id),
    ensures
        !votes.has_led(node.current_term),
{
    let ids = cluster.nodes.dom();
    let term = node.current_term;
    assert(voter_ok(node, node.id, votes, ids));
    if votes.has_led(term) {
        let other = votes.leader[term];
        let both = lemma_quorums_meet(counted, votes.voters[term], ids);
        assert(votes.voted(both, term, node.id));
        assert(votes.voted(both, term, other));
        assert(!votes.choice.dom().contains(Turn { node: other, term }));
        assert(!votes.choice.dom().contains(Turn { node: node.id, term }));
    }
}

/// The node where an event happens keeps to what holds of its votes.
#[verifier::rlimit(60)]
proof fn lemma_voter_step(cluster: Cluster, event: Event, votes: Votes)
    requires
        elections_ok(cluster, votes),
        enabled(cluster, event),
    ensures
        ({
            let id = event.node();
            let node = cluster.nodes[id];
            let next = outcome(node, event).state;
            let votes_next = votes.extended(event, node, next);
            &&& voter_ok(next, id, votes_next, cluster.nodes.dom())
            &&& votes_ok(votes_next, cluster.nodes.dom())
            &&& votes_grow(votes, votes_next)
        }),
{
    let id = event.node();
    let ids = cluster.nodes.dom();
    let node = cluster.nodes[id];
    let next = outcome(node, event).state;
    let votes_next = votes.extended(event, node, next);
    assert(voter_ok(node, id, votes, ids));
    match event {
        Event::Deliver { envelope, timeout } => {
            assert(vote_message_ok(envelope, votes, ids));
            match envelope.message {
                MessageView::RequestVoteResponse(resp) => {
                    let joined = node.joined_term(resp.term, timeout);
                    if joined.state == RaftState::Candidate && resp.vote_granted && resp.term
                        == joined.current_term {
                        assert(joined == node);
                        let counted = CoreView {
                            votes_received: joined.votes_received.insert(resp.id),
                            ..joined
                        };
                        assert(votes.voted(resp.id, node.current_term, id));
                        assert(counted.votes_received.subset_of(ids));
                        if counted.has_won() {
                            lemma_winner_has_quorum(counted, ids);
                            lemma_no_leader_yet(cluster, votes, node, counted.votes_received);
                            assert(next.votes_received == counted.votes_received);
                            assert(wins(node, next));
                            assert(votes_next.voters.dom() =~= votes_next.leader.dom());
                            assert forall|term: u64| #[trigger]
                                votes_next.has_led(term) implies votes_term_ok(
                                votes_next,
                                term,
                                ids,
                            ) by {
                                assert(votes.has_led(term) ==> votes_term_ok(votes, term, ids));
                            }
                            assert(votes_grow(votes, votes_next));
                            assert(votes_ok(votes_next, ids));
                            assert forall|term: u64| #[trigger]
                                votes_next.has_led(term) && votes_next.leader[term]
                                    == id implies term <= next.current_term && (term
                                == next.current_term ==> next.voted_for == Some(id)) by {
                                assert(votes.has_led(term) || term == next.current_term);
                            }
                            assert(voter_ok(next, id, votes_next, ids));
                        } else {
                            assert(votes_next == votes);
                            assert(voter_ok(next, id, votes_next, ids));
                        }
                    } else {
                        assert(votes_next == votes);
                        assert(voter_ok(next, id, votes_next, ids));
                    }
                },
                MessageView::RequestVote(req) => {
                    assert forall|term: u64| #[trigger] votes_next.has_led(term) implies votes_term_ok(
                        votes_next,
                        term,
                        ids,
                    ) by {
                        assert(!wins(node, next));
                        assert(votes.has_led(term));
                        assert(votes_term_ok(votes, term, ids));
                        let leader = votes.leader[term];
                        let turn = Turn { node: id, term: next.current_term };
                        if granted_request(event, node) is Some {
                            assert(turn != Turn { node: leader, term }) by {
                                assert(votes.has_led(term) && leader == id ==> term
                                    <= node.current_term);
                            }
                            assert forall|voter: u64| #[trigger]
                                votes_next.voters[term].contains(voter) implies votes_next.voted(
                                voter,
                                term,
                                leader,
                            ) by {
                                assert(votes.voters[term].contains(voter));
                                assert(votes.voted(voter, term, leader));
                                if voter == id && term == next.current_term && voter != leader {
                                    assert(votes.choice.dom().contains(Turn { node: id, term }));
                                }
                            }
                        }
                    }
                    assert(votes_grow(votes, votes_next));
                    assert(votes_ok(votes_next, ids));
                    assert(voter_ok(next, id, votes_next, ids));
                },
                MessageView::AppendEntries(req) => {
                    assert(votes_next == votes);
                    assert(voter_ok(next, id, votes_next, ids));
                },
                MessageView::AppendEntriesResponse(req) => {
                    assert(votes_next == votes);
                    assert(voter_ok(next, id, votes_next, ids));
                },
                MessageView::InstallSnapshot(req) => {
                    assert(votes_next == votes);
                    assert(voter_ok(next, id, votes_next, ids));
                },
                MessageView::InstallSnapshotResponse(req) => {
                    assert(votes_next == votes);
                    assert(voter_ok(next, id, votes_next, ids));
                },
            }
        },
        Event::Tick { .. } => {
            assert forall|term: u64| #[trigger] votes_next.has_led(term) implies votes_term_ok(
                votes_next,
                term,
                ids,
            ) by {
                assert(votes.has_led(term));
            }
            assert(votes_ok(votes_next, ids));
            assert forall|term: u64| #[trigger]
                votes_next.has_led(term) && votes_next.leader[term] == id implies term
                <= node.current_term by {
                assert(votes.has_led(term));
            }
            assert(voter_ok(next, id, votes_next, ids));
        },
        Event::Propose { .. } => {
            assert(votes_next == votes);
            assert(voter_ok(next, id, votes_next, ids));
        },
        Event::Read { .. } => {
            assert(votes_next == votes);
            assert(voter_ok(next, id, votes_next, ids));
        },
        Event::Compact { .. } => {
            assert(votes_next == votes);
            assert(voter_ok(next, id, votes_next, ids));
        },
        Event::Restart { .. } => {
            assert(votes_next == votes);
            assert(voter_ok(next, id, votes_next, ids));
        },
    }
    assert(votes_grow(votes, votes_next));
    assert(votes_ok(votes_next, ids));
    assert(voter_ok(next, id, votes_next, ids));
}

/// Stable storage and reads put no messages on their way and apply no entries.
pub proof fn lemma_settled(step: Step, id: u64)
    ensures
        forall|envelope: Envelope| #[trigger]
            sends(id, step.settled().actions, envelope) ==> sends(id, step.actions, envelope),
        forall|application: Application| #[trigger]
            applies(step.settled().actions, application) ==> applies(step.actions, application),
{
    let first = step.state.persistence();
    let last = step.state.saved().read_answers();
    let all = step.settled().actions;
    assert(all =~= first + step.actions + last);
    assert forall|i: int| 0 <= i < all.len() implies {
        ||| is_quiet(#[trigger] all[i])
        ||| exists|j: int| 0 <= j < step.actions.len() && #[trigger] step.actions[j] == all[i]
    } by {
        if i < first.len() {
            assert(all[i] == first[i]);
        } else if i < first.len() + step.actions.len() {
            assert(all[i] == step.actions[i - first.len()]);
        } else {
            assert(all[i] == last[i - first.len() - step.actions.len()]);
        }
    }
    assert forall|envelope: Envelope| #[trigger] sends(id, all, envelope) implies sends(
        id,
        step.actions,
        envelope,
    ) by {
        let i = choose|i: int| 0 <= i < all.len() && carries(id, #[trigger] all[i], envelope);
        assert(!is_quiet(all[i]));
        let j = choose|j: int|
            0 <= j < step.actions.len() && #[trigger] step.actions[j] == all[i];
        assert(carries(id, step.actions[j], envelope));
    }
    assert forall|application: Application| #[trigger] applies(all, application) implies applies(
        step.actions,
        application,
    ) by {
        let i = choose|i: int|
            0 <= i < all.len() && #[trigger] all[i] == (ActionView::ApplyToStateMachine {
                index: application.index,
                command: application.command,
            });
        assert(!is_quiet(all[i]));
        let j = choose|j: int|
            0 <= j < step.actions.len() && #[trigger] step.actions[j] == all[i];
        assert(step.actions[j] == all[i]);
    }
}

/// Whether an action neither sends nor applies.
pub open spec fn is_quiet(action: ActionView) -> bool {
    action is PersistMetadata || action is PersistLogEntries || action is ReadBarrierReady
}

/// What a node sends about votes is in keeping with them.
proof fn lemma_new_vote_message(cluster: Cluster, event: Event, votes: Votes, envelope: Envelope)
    requires
        elections_ok(cluster, votes),
        enabled(cluster, event),
        sends(event.node(), outcome(cluster.nodes[event.node()], event).actions, envelope),
    ensures
        ({
            let node = cluster.nodes[event.node()];
            let next = outcome(node, event).state;
            vote_message_ok(envelope, votes.extended(event, node, next), cluster.nodes.dom())
        }),
{
    let id = event.node();
    let ids = cluster.nodes.dom();
    let node = cluster.nodes[id];
    assert(voter_ok(node, id, votes, ids));
    lemma_peers(node, ids);
    match event {
        Event::Tick { timeout, .. } => {
            lemma_settled(node.on_tick(timeout), id);
        },
        Event::Propose { command, .. } => {
            lemma_settled(node.on_propose(command), id);
        },
        Event::Read { .. } => {
            lemma_settled(
                Step { state: node.on_read_request(), actions: Seq::<ActionView>::empty() },
                id,
            );
        },
        Event::Deliver { envelope, timeout } => {
            assert(vote_message_ok(envelope, votes, ids));
            lemma_settled(node.on_message(envelope.message, timeout), id);
        },
        Event::Compact { .. } => {},
        Event::Restart { .. } => {},
    }
}

/// An event keeps to what holds of the votes.
pub proof fn lemma_elections_step(cluster: Cluster, event: Event, votes: Votes)
    requires
        elections_ok(cluster, votes),
        enabled(cluster, event),
    ensures
        ({
            let node = cluster.nodes[event.node()];
            let next = outcome(node, event).state;
            &&& after(cluster, event).nodes.dom() == cluster.nodes.dom()
            &&& elections_ok(after(cluster, event), votes.extended(event, node, next))
            &&& votes_grow(votes, votes.extended(event, node, next))
        }),
{
    let id = event.node();
    let ids = cluster.nodes.dom();
    let node = cluster.nodes[id];
    let step = outcome(node, event);
    let votes_next = votes.extended(event, node, step.state);
    let cluster_next = after(cluster, event);
    lemma_voter_step(cluster, event, votes);
    assert(cluster_next.nodes.dom() =~= ids);
    assert forall|other: u64| #[trigger] ids.contains(other) implies voter_ok(
        cluster_next.nodes[other],
        other,
        votes_next,
        ids,
    ) by {
        if other != id {
            let peer = cluster.nodes[other];
            assert(voter_ok(peer, other, votes, ids));
            assert(voter_ok(node, id, votes, ids));
            assert forall|term: u64| #[trigger]
                votes_next.has_led(term) && votes_next.leader[term] == other implies votes.has_led(
                term,
            ) && votes.leader[term] == other by {
            }
            assert forall|term: u64| #[trigger]
                votes_next.choice.dom().contains(
                    Turn { node: other, term },
                ) implies votes.choice.dom().contains(Turn { node: other, term })
                && votes_next.choice[Turn { node: other, term }] == votes.choice[Turn {
                node: other,
                term,
            }] by {
            }
            assert forall|voter: u64| #[trigger]
                peer.votes_received.contains(voter) && peer.state
                    == RaftState::Candidate implies votes_next.voted(
                voter,
                peer.current_term,
                other,
            ) by {
                assert(votes.voted(voter, peer.current_term, other));
            }
        }
    }
    assert forall|envelope: Envelope| #[trigger]
        cluster_next.sent.contains(envelope) implies vote_message_ok(
        envelope,
        votes_next,
        ids,
    ) by {
        if cluster.sent.contains(envelope) {
            assert(vote_message_ok(envelope, votes, ids));
        } else {
            lemma_new_vote_message(cluster, event, votes, envelope);
        }
    }
    assert forall|lead: Leadership| #[trigger]
        cluster_next.led.contains(lead) implies votes_next.has_led(lead.term)
        && votes_next.leader[lead.term] == lead.node by {
        if cluster.led.contains(lead) {
            assert(votes.has_led(lead.term));
        } else {
            assert(voter_ok(step.state, id, votes_next, ids));
        }
    }
}

/// The votes after the first `n` events of a run.
pub open spec fn votes_at(start: Cluster, events: Seq<Event>, n: nat) -> Votes
    decreases n,
{
    if n == 0 {
        Votes::none()
    } else {
        let before = reached(start, events, (n - 1) as nat);
        let node = before.nodes[events[n - 1].node()];
        votes_at(start, events, (n - 1) as nat).extended(
            events[n - 1],
            node,
            outcome(node, events[n - 1]).state,
        )
    }
}

/// What holds of the votes holds throughout a run.
pub proof fn lemma_elections(start: Cluster, events: Seq<Event>, n: nat)
    requires
        is_run(start, events),
        n <= events.len(),
    ensures
        elections_ok(reached(start, events, n), votes_at(start, events, n)),
        reached(start, events, n).nodes.dom() == start.nodes.dom(),
    decreases n,
{
    if n == 0 {
        let ids = start.nodes.dom();
        assert forall|id: u64| #[trigger] ids.contains(id) implies voter_ok(
            start.nodes[id],
            id,
            Votes::none(),
            ids,
        ) by {
            assert(is_fresh(start.nodes[id], id, ids));
        }
    } else {
        let m = (n - 1) as nat;
        lemma_elections(start, events, m);
        assert(enabled(reached(start, events, m), events[m as int]));
        lemma_elections_step(reached(start, events, m), events[m as int], votes_at(
            start,
            events,
            m,
        ));
    }
}

/// Election safety: in no run does a term have two leaders, not even one after the other.
pub proof fn law_one_leader_per_term(
    start: Cluster,
    events: Seq<Event>,
    a: Leadership,
    b: Leadership,
)
    requires
        is_run(start, events),
        reached(start, events, events.len()).led.contains(a),
        reached(start, events, events.len()).led.contains(b),
        a.term == b.term,
    ensures
        a.node == b.node,
{
    lemma_elections(start, events, events.len());
}

} // verus!
